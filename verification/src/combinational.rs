//! The combinational primitive catalog and its update protocol: each
//! primitive reads its input ports, computes with bit-vector values, writes
//! its output port, and reports `Changed` or `Unchanged` so that an external
//! fixpoint loop knows whether to re-iterate.

use vstd::prelude::*;
use crate::bits::{
    uval, sval, not_bits, and_bits, or_bits, xor_bits, add_bits, sub_bits, shl_bits, lshr_bits,
    ashr_bits, concat_bits, mul_bits, udiv_bits, umod_bits, sdiv_bits, smod_bits, zeros,
};
use crate::value::Value;
use crate::port::{PortMap, UpdateStatus, UpdateResult, RuntimeError, GlobalPortIdx};

verus! {

/// A constant source: writes its fixed value exactly once, on the first
/// evaluation that finds the output still undefined, and reports `Unchanged`
/// ever after.
pub struct StdConst {
    value: Value,
    out: GlobalPortIdx,
}

impl StdConst {
    pub closed spec fn spec_value(&self) -> Seq<bool> {
        self.value@
    }

    pub closed spec fn spec_out(&self) -> int {
        self.out as int
    }

    pub fn new(value: Value, out: GlobalPortIdx) -> (r: StdConst)
        ensures
            r.spec_value() == value@,
            r.spec_out() == out,
    {
        StdConst { value, out }
    }

    /// One combinational evaluation: a no-op unless the output is undefined.
    pub fn exec_comb(&self, port_map: &mut PortMap) -> (r: UpdateResult)
        requires
            self.spec_out() < old(port_map)@.len(),
        ensures
            ({
                let (m2, st) = const_step(old(port_map)@, self.spec_value(), self.spec_out());
                final(port_map)@ == m2 && r == Ok::<UpdateStatus, RuntimeError>(st)
            }),
    {
        if port_map.read(self.out).is_undef() {
            let st = port_map.insert_val(self.out, self.value.duplicate());
            proof {
                assert(old(port_map)@[self.spec_out()] != Some(self.spec_value()));
            }
            Ok(st)
        } else {
            proof {
                assert(final(port_map)@ =~= old(port_map)@);
            }
            Ok(UpdateStatus::Unchanged)
        }
    }

    /// A constant has no state: a clock tick changes neither the map nor
    /// the primitive, so the stored value survives every cycle.
    pub fn exec_cycle(&mut self, port_map: &mut PortMap) -> (r: UpdateResult)
        ensures
            final(port_map)@ == old(port_map)@,
            final(self).spec_value() == old(self).spec_value(),
            final(self).spec_out() == old(self).spec_out(),
            r == Ok::<UpdateStatus, RuntimeError>(UpdateStatus::Unchanged),
    {
        Ok(UpdateStatus::Unchanged)
    }

    /// Once its output is written, a constant never needs re-evaluation
    /// within a run, so it does not count as combinational work.
    pub fn has_comb(&self) -> (r: bool)
        ensures
            r == false,
    {
        false
    }

    /// A constant holds no internal state.
    pub fn has_stateful(&self) -> (r: bool)
        ensures
            r == false,
    {
        false
    }
}

/// What one constant evaluation does to the map.
pub open spec fn const_step(map: Seq<Option<Seq<bool>>>, value: Seq<bool>, out: int) -> (
    Seq<Option<Seq<bool>>>,
    UpdateStatus,
) {
    if map[out] is None {
        (map.update(out, Some(value)), UpdateStatus::Changed)
    } else {
        (map, UpdateStatus::Unchanged)
    }
}

/// A two-way multiplexer over ports `COND`, `TRU`, `FAL`, `OUT` at fixed
/// offsets from its base handle.
pub struct StdMux {
    base: GlobalPortIdx,
}

/// What one mux evaluation does to the map: the output tracks whichever
/// branch the condition selects; an undefined (or non-boolean) condition, or
/// an undefined selected branch, makes the output undefined.
pub open spec fn mux_step(map: Seq<Option<Seq<bool>>>, base: int) -> (
    Seq<Option<Seq<bool>>>,
    UpdateStatus,
) {
    let cond = map[base];
    let winning = if cond is Some && cond->0.len() == 1 {
        if cond->0[0] {
            map[base + 1]
        } else {
            map[base + 2]
        }
    } else {
        None
    };
    match winning {
        Some(v) => write_step(map, base + 3, v),
        None => undef_step(map, base + 3),
    }
}

/// Writing a value: `Changed` exactly when the port did not already hold it.
pub open spec fn write_step(map: Seq<Option<Seq<bool>>>, out: int, v: Seq<bool>) -> (
    Seq<Option<Seq<bool>>>,
    UpdateStatus,
) {
    (
        map.update(out, Some(v)),
        if map[out] == Some(v) {
            UpdateStatus::Unchanged
        } else {
            UpdateStatus::Changed
        },
    )
}

/// Withdrawing a value: `Changed` exactly when the port was defined.
pub open spec fn undef_step(map: Seq<Option<Seq<bool>>>, out: int) -> (
    Seq<Option<Seq<bool>>>,
    UpdateStatus,
) {
    (
        map.update(out, None),
        if map[out] is None {
            UpdateStatus::Unchanged
        } else {
            UpdateStatus::Changed
        },
    )
}

impl StdMux {
    pub closed spec fn spec_base(&self) -> int {
        self.base as int
    }

    pub fn new(base: GlobalPortIdx) -> (r: StdMux)
        ensures
            r.spec_base() == base,
    {
        StdMux { base }
    }

    /// One combinational evaluation of the mux.
    pub fn exec_comb(&self, port_map: &mut PortMap) -> (r: UpdateResult)
        requires
            self.spec_base() + 4 <= old(port_map)@.len(),
        ensures
            ({
                let (m2, st) = mux_step(old(port_map)@, self.spec_base());
                final(port_map)@ == m2 && r == Ok::<UpdateStatus, RuntimeError>(st)
            }),
    {
        let n: usize = port_map.len();
        assert(self.base + 4 <= n);
        let cond: GlobalPortIdx = self.base;
        let tru: GlobalPortIdx = self.base + 1;
        let fal: GlobalPortIdx = self.base + 2;
        let out: GlobalPortIdx = self.base + 3;
        let winning: Option<Value> = match port_map.read(cond).as_bool() {
            Some(c) => {
                let sel: GlobalPortIdx = if c {
                    tru
                } else {
                    fal
                };
                match port_map.read(sel).val() {
                    Some(v) => Some(v.duplicate()),
                    None => None,
                }
            },
            None => None,
        };
        match winning {
            Some(v) => Ok(port_map.insert_val(out, v)),
            None => Ok(port_map.write_undef(out)),
        }
    }

    /// The mux is purely combinational: its output is a function of the
    /// current condition and branch ports only.
    pub fn has_stateful(&self) -> (r: bool)
        ensures
            r == false,
    {
        false
    }
}

/// The binary combinational operators of the catalog. The `Fp` forms share
/// the integer semantics: fixed-point operands are bit patterns like any
/// other. The `Unsyn` forms are the unsynthesizable helpers computed in
/// exact arbitrary-precision arithmetic, then truncated to the width.
#[derive(PartialEq, Eq, Structural, Clone, Copy, Debug)]
pub enum BinaryOp {
    Add,
    Sub,
    FpAdd,
    FpSub,
    Lsh,
    Rsh,
    Slsh,
    Srsh,
    And,
    Or,
    Xor,
    Gt,
    Lt,
    Ge,
    Le,
    Equal,
    NotEqual,
    SignedGt,
    SignedLt,
    SignedGe,
    SignedLe,
    SignedEqual,
    SignedNotEqual,
    FpGt,
    FpSgt,
    FpSlt,
    Cat,
    UnsynMult,
    UnsynDiv,
    UnsynMod,
    UnsynSmult,
    UnsynSdiv,
    UnsynSmod,
}

/// A single bit as a one-wide pattern.
pub open spec fn bool_bit(b: bool) -> Seq<bool> {
    seq![b]
}

/// The result pattern of a binary operator on equal-width operands.
pub open spec fn binop_result(op: BinaryOp, l: Seq<bool>, r: Seq<bool>) -> Seq<bool> {
    match op {
        BinaryOp::Add => add_bits(l, r),
        BinaryOp::Sub => sub_bits(l, r),
        BinaryOp::FpAdd => add_bits(l, r),
        BinaryOp::FpSub => sub_bits(l, r),
        BinaryOp::Lsh => shl_bits(l, uval(r)),
        BinaryOp::Rsh => lshr_bits(l, uval(r)),
        BinaryOp::Slsh => shl_bits(l, uval(r)),
        BinaryOp::Srsh => ashr_bits(l, uval(r)),
        BinaryOp::And => and_bits(l, r),
        BinaryOp::Or => or_bits(l, r),
        BinaryOp::Xor => xor_bits(l, r),
        BinaryOp::Gt => bool_bit(uval(l) > uval(r)),
        BinaryOp::Lt => bool_bit(uval(l) < uval(r)),
        BinaryOp::Ge => bool_bit(uval(l) >= uval(r)),
        BinaryOp::Le => bool_bit(uval(l) <= uval(r)),
        BinaryOp::Equal => bool_bit(l == r),
        BinaryOp::NotEqual => bool_bit(l != r),
        BinaryOp::SignedGt => bool_bit(sval(l) > sval(r)),
        BinaryOp::SignedLt => bool_bit(sval(l) < sval(r)),
        BinaryOp::SignedGe => bool_bit(sval(l) >= sval(r)),
        BinaryOp::SignedLe => bool_bit(sval(l) <= sval(r)),
        BinaryOp::SignedEqual => bool_bit(l == r),
        BinaryOp::SignedNotEqual => bool_bit(l != r),
        BinaryOp::FpGt => bool_bit(uval(l) > uval(r)),
        BinaryOp::FpSgt => bool_bit(sval(l) > sval(r)),
        BinaryOp::FpSlt => bool_bit(sval(l) < sval(r)),
        BinaryOp::Cat => concat_bits(l, r),
        BinaryOp::UnsynMult => mul_bits(l, r),
        BinaryOp::UnsynDiv => udiv_bits(l, r),
        BinaryOp::UnsynMod => umod_bits(l, r),
        BinaryOp::UnsynSmult => mul_bits(l, r),
        BinaryOp::UnsynSdiv => sdiv_bits(l, r),
        BinaryOp::UnsynSmod => smod_bits(l, r),
    }
}

/// Concatenation joins operands of any widths; every other binary operator
/// requires its operands to match.
pub open spec fn binop_widths_ok(op: BinaryOp, l: Seq<bool>, r: Seq<bool>) -> bool {
    op is Cat || l.len() == r.len()
}

/// The division helpers leave out a zero divisor: the original arithmetic
/// has no answer there, and this library's functions do not panic.
pub open spec fn unsyn_inputs_ok(op: BinaryOp, l: Seq<bool>, r: Seq<bool>) -> bool {
    match op {
        BinaryOp::UnsynDiv => uval(r) != 0 && l.len() < usize::MAX,
        BinaryOp::UnsynMod => uval(r) != 0 && l.len() < usize::MAX,
        BinaryOp::UnsynSdiv => sval(r) != 0 && l.len() < usize::MAX,
        BinaryOp::UnsynSmod => sval(r) != 0 && l.len() < usize::MAX,
        _ => true,
    }
}

/// One combinational primitive of the catalog, holding its base port handle
/// and compile-time parameters. Ports sit at fixed offsets from the base:
/// inputs first, the output last.
pub enum CombPrim {
    Const(StdConst),
    Mux(StdMux),
    /// identity: passes its input through, including undefined
    Wire { base: GlobalPortIdx },
    /// bitwise complement
    Not { base: GlobalPortIdx },
    /// low-bit truncation to `out_width`
    Slice { base: GlobalPortIdx, out_width: usize },
    /// zero-extension to `out_width`
    Pad { base: GlobalPortIdx, out_width: usize },
    /// a binary operator over ports base, base+1, writing base+2
    Binary { op: BinaryOp, base: GlobalPortIdx },
}

/// The least map length that holds all of a primitive's ports.
pub open spec fn ports_end(p: CombPrim) -> int {
    match p {
        CombPrim::Const(c) => c.spec_out() + 1,
        CombPrim::Mux(m) => m.spec_base() + 4,
        CombPrim::Wire { base } => base + 2,
        CombPrim::Not { base } => base + 2,
        CombPrim::Slice { base, .. } => base + 2,
        CombPrim::Pad { base, .. } => base + 2,
        CombPrim::Binary { base, .. } => base + 3,
    }
}

/// The inputs a primitive's evaluation is defined on (everything, except a
/// zero divisor for the division helpers).
pub open spec fn comb_inputs_ok(p: CombPrim, map: Seq<Option<Seq<bool>>>) -> bool {
    match p {
        CombPrim::Binary { op, base } => match (map[base as int], map[base + 1]) {
            (Some(l), Some(r)) => unsyn_inputs_ok(op, l, r),
            _ => true,
        },
        _ => true,
    }
}

/// What one combinational evaluation of a primitive does to the map: the
/// full step function of the update protocol. An undefined required input
/// makes the output undefined (never a fabricated default); a width
/// violation is a hard error that leaves the map untouched.
pub open spec fn comb_step(p: CombPrim, map: Seq<Option<Seq<bool>>>) -> Result<
    (Seq<Option<Seq<bool>>>, UpdateStatus),
    RuntimeError,
> {
    match p {
        CombPrim::Const(c) => Ok(const_step(map, c.spec_value(), c.spec_out())),
        CombPrim::Mux(m) => Ok(mux_step(map, m.spec_base())),
        CombPrim::Wire { base } => match map[base as int] {
            Some(v) => Ok(write_step(map, base + 1, v)),
            None => Ok(undef_step(map, base + 1)),
        },
        CombPrim::Not { base } => match map[base as int] {
            Some(v) => Ok(write_step(map, base + 1, not_bits(v))),
            None => Ok(undef_step(map, base + 1)),
        },
        CombPrim::Slice { base, out_width } => match map[base as int] {
            Some(v) => if out_width <= v.len() {
                Ok(write_step(map, base + 1, v.take(out_width as int)))
            } else {
                Err(RuntimeError::WidthMismatch)
            },
            None => Ok(undef_step(map, base + 1)),
        },
        CombPrim::Pad { base, out_width } => match map[base as int] {
            Some(v) => if out_width >= v.len() {
                Ok(write_step(map, base + 1, v + zeros((out_width - v.len()) as nat)))
            } else {
                Err(RuntimeError::WidthMismatch)
            },
            None => Ok(undef_step(map, base + 1)),
        },
        CombPrim::Binary { op, base } => match (map[base as int], map[base + 1]) {
            (Some(l), Some(r)) => if binop_widths_ok(op, l, r) {
                Ok(write_step(map, base + 2, binop_result(op, l, r)))
            } else {
                Err(RuntimeError::WidthMismatch)
            },
            _ => Ok(undef_step(map, base + 2)),
        },
    }
}

impl CombPrim {
    /// One combinational evaluation against the shared port map, exactly the
    /// step function `comb_step`.
    pub fn exec_comb(&self, port_map: &mut PortMap) -> (r: UpdateResult)
        requires
            ports_end(*self) <= old(port_map)@.len(),
            comb_inputs_ok(*self, old(port_map)@),
        ensures
            match comb_step(*self, old(port_map)@) {
                Ok((m2, st)) => final(port_map)@ == m2 && r == Ok::<UpdateStatus, RuntimeError>(
                    st,
                ),
                Err(e) => final(port_map)@ == old(port_map)@ && r == Err::<
                    UpdateStatus,
                    RuntimeError,
                >(e),
            },
    {
        let n: usize = port_map.len();
        assert(ports_end(*self) <= n);
        match self {
            CombPrim::Const(c) => c.exec_comb(port_map),
            CombPrim::Mux(m) => m.exec_comb(port_map),
            CombPrim::Wire { base } => {
                let input: Option<Value> = match port_map.read(*base).val() {
                    Some(v) => Some(v.duplicate()),
                    None => None,
                };
                match input {
                    Some(v) => Ok(port_map.insert_val(*base + 1, v)),
                    None => Ok(port_map.write_undef(*base + 1)),
                }
            },
            CombPrim::Not { base } => {
                let input: Option<Value> = match port_map.read(*base).val() {
                    Some(v) => Some(v.not()),
                    None => None,
                };
                match input {
                    Some(v) => Ok(port_map.insert_val(*base + 1, v)),
                    None => Ok(port_map.write_undef(*base + 1)),
                }
            },
            CombPrim::Slice { base, out_width } => {
                match port_map.read(*base).val() {
                    Some(v) => {
                        if *out_width <= v.width() {
                            let t = v.truncate(*out_width);
                            Ok(port_map.insert_val(*base + 1, t))
                        } else {
                            proof {
                                assert(final(port_map)@ =~= old(port_map)@);
                            }
                            Err(RuntimeError::WidthMismatch)
                        }
                    },
                    None => Ok(port_map.write_undef(*base + 1)),
                }
            },
            CombPrim::Pad { base, out_width } => {
                match port_map.read(*base).val() {
                    Some(v) => {
                        if *out_width >= v.width() {
                            let t = v.ext(*out_width);
                            Ok(port_map.insert_val(*base + 1, t))
                        } else {
                            proof {
                                assert(final(port_map)@ =~= old(port_map)@);
                            }
                            Err(RuntimeError::WidthMismatch)
                        }
                    },
                    None => Ok(port_map.write_undef(*base + 1)),
                }
            },
            CombPrim::Binary { op, base } => {
                let left: Option<Value> = match port_map.read(*base).val() {
                    Some(v) => Some(v.duplicate()),
                    None => None,
                };
                let right: Option<Value> = match port_map.read(*base + 1).val() {
                    Some(v) => Some(v.duplicate()),
                    None => None,
                };
                match (left, right) {
                    (Some(lv), Some(rv)) => {
                        let widths_ok: bool = match op {
                            BinaryOp::Cat => true,
                            _ => lv.width() == rv.width(),
                        };
                        if !widths_ok {
                            proof {
                                assert(final(port_map)@ =~= old(port_map)@);
                            }
                            return Err(RuntimeError::WidthMismatch);
                        }
                        let result: Value = apply_binop(*op, &lv, &rv);
                        Ok(port_map.insert_val(*base + 2, result))
                    },
                    _ => Ok(port_map.write_undef(*base + 2)),
                }
            },
        }
    }
}

/// Computes one binary operator on equal-width operands.
fn apply_binop(op: BinaryOp, l: &Value, r: &Value) -> (res: Value)
    requires
        binop_widths_ok(op, l@, r@),
        unsyn_inputs_ok(op, l@, r@),
    ensures
        res@ == binop_result(op, l@, r@),
{
    match op {
        BinaryOp::Add => l.add(r),
        BinaryOp::Sub => l.subtract(r),
        BinaryOp::FpAdd => l.add(r),
        BinaryOp::FpSub => l.subtract(r),
        BinaryOp::Lsh => l.shift_left(r),
        BinaryOp::Rsh => l.shift_right(r),
        BinaryOp::Slsh => l.shift_left(r),
        BinaryOp::Srsh => l.arithmetic_shift_right(r),
        BinaryOp::And => l.and(r),
        BinaryOp::Or => l.or(r),
        BinaryOp::Xor => l.xor(r),
        BinaryOp::Gt => Value::from_bool(l.is_greater(r)),
        BinaryOp::Lt => Value::from_bool(l.is_less(r)),
        BinaryOp::Ge => Value::from_bool(l.is_greater_or_equal(r)),
        BinaryOp::Le => Value::from_bool(l.is_less_or_equal(r)),
        BinaryOp::Equal => Value::from_bool(l.is_equal(r)),
        BinaryOp::NotEqual => Value::from_bool(l.is_not_equal(r)),
        BinaryOp::SignedGt => Value::from_bool(l.is_greater_signed(r)),
        BinaryOp::SignedLt => Value::from_bool(l.is_less_signed(r)),
        BinaryOp::SignedGe => Value::from_bool(l.is_greater_or_equal_signed(r)),
        BinaryOp::SignedLe => Value::from_bool(l.is_less_or_equal_signed(r)),
        BinaryOp::SignedEqual => Value::from_bool(l.is_equal(r)),
        BinaryOp::SignedNotEqual => Value::from_bool(l.is_not_equal(r)),
        BinaryOp::FpGt => Value::from_bool(l.is_greater(r)),
        BinaryOp::FpSgt => Value::from_bool(l.is_greater_signed(r)),
        BinaryOp::FpSlt => Value::from_bool(l.is_less_signed(r)),
        BinaryOp::Cat => Value::concat(l, r),
        BinaryOp::UnsynMult => l.multiply(r),
        BinaryOp::UnsynDiv => l.divide(r),
        BinaryOp::UnsynMod => l.remainder(r),
        BinaryOp::UnsynSmult => l.multiply(r),
        BinaryOp::UnsynSdiv => l.divide_signed(r),
        BinaryOp::UnsynSmod => l.signed_mod(r),
    }
}

/// Aggregation of convergence signals: a pass is stable only when every
/// primitive in it was a no-op.
pub open spec fn combine_status(a: UpdateStatus, b: UpdateStatus) -> UpdateStatus {
    if a is Changed || b is Changed {
        UpdateStatus::Changed
    } else {
        UpdateStatus::Unchanged
    }
}

/// What one full evaluation pass does to the map: the primitives step in
/// order, and the pass reports `Changed` when any of them did.
pub open spec fn pass_step(prims: Seq<CombPrim>, map: Seq<Option<Seq<bool>>>) -> Result<
    (Seq<Option<Seq<bool>>>, UpdateStatus),
    RuntimeError,
>
    decreases prims.len(),
{
    if prims.len() == 0 {
        Ok((map, UpdateStatus::Unchanged))
    } else {
        match comb_step(prims[0], map) {
            Err(e) => Err(e),
            Ok((m1, s1)) => match pass_step(prims.drop_first(), m1) {
                Err(e) => Err(e),
                Ok((m2, s2)) => Ok((m2, combine_status(s1, s2))),
            },
        }
    }
}

/// Every intermediate map of a pass admits its primitive's inputs (no zero
/// divisor reaches a division helper).
pub open spec fn pass_inputs_ok(prims: Seq<CombPrim>, map: Seq<Option<Seq<bool>>>) -> bool
    decreases prims.len(),
{
    prims.len() == 0 || (comb_inputs_ok(prims[0], map) && match comb_step(prims[0], map) {
        Err(_) => true,
        Ok((m1, _)) => pass_inputs_ok(prims.drop_first(), m1),
    })
}

/// A step never changes the map's length.
pub proof fn lemma_comb_step_len(p: CombPrim, map: Seq<Option<Seq<bool>>>)
    requires
        ports_end(p) <= map.len(),
    ensures
        match comb_step(p, map) {
            Ok((m1, _)) => m1.len() == map.len(),
            Err(_) => true,
        },
{
    match p {
        CombPrim::Const(c) => {
            assert(comb_step(p, map) == Ok::<(Seq<Option<Seq<bool>>>, UpdateStatus), RuntimeError>(
                const_step(map, c.spec_value(), c.spec_out()),
            ));
        },
        CombPrim::Mux(m) => {
            assert(comb_step(p, map) == Ok::<(Seq<Option<Seq<bool>>>, UpdateStatus), RuntimeError>(
                mux_step(map, m.spec_base()),
            ));
        },
        CombPrim::Wire { base } => {
        },
        CombPrim::Not { base } => {
        },
        CombPrim::Slice { base, out_width } => {
        },
        CombPrim::Pad { base, out_width } => {
        },
        CombPrim::Binary { op, base } => {
        },
    }
}

/// One full evaluation pass over the catalog, in order: the simple control
/// loop the external scheduler repeats until everything reports `Unchanged`.
pub fn eval_pass(prims: &Vec<CombPrim>, port_map: &mut PortMap) -> (r: UpdateResult)
    requires
        forall|i: int|
            0 <= i < prims@.len() ==> ports_end(#[trigger] prims@[i]) <= old(port_map)@.len(),
        pass_inputs_ok(prims@, old(port_map)@),
    ensures
        match pass_step(prims@, old(port_map)@) {
            Ok((m2, st)) => final(port_map)@ == m2 && r == Ok::<UpdateStatus, RuntimeError>(st),
            Err(e) => r == Err::<UpdateStatus, RuntimeError>(e),
        },
{
    let n: usize = prims.len();
    let mut i: usize = 0;
    let mut changed: bool = false;
    proof {
        assert(prims@.skip(0) =~= prims@);
    }
    while i < n
        invariant
            i <= n,
            n == prims@.len(),
            port_map@.len() == old(port_map)@.len(),
            forall|j: int| 0 <= j < n ==> ports_end(#[trigger] prims@[j]) <= port_map@.len(),
            pass_inputs_ok(prims@.skip(i as int), port_map@),
            match pass_step(prims@.skip(i as int), port_map@) {
                Ok((m2, s2)) => pass_step(prims@, old(port_map)@) == Ok::<
                    (Seq<Option<Seq<bool>>>, UpdateStatus),
                    RuntimeError,
                >(
                    (
                        m2,
                        combine_status(
                            if changed {
                                UpdateStatus::Changed
                            } else {
                                UpdateStatus::Unchanged
                            },
                            s2,
                        ),
                    ),
                ),
                Err(e) => pass_step(prims@, old(port_map)@) == Err::<
                    (Seq<Option<Seq<bool>>>, UpdateStatus),
                    RuntimeError,
                >(e),
            },
        decreases n - i,
    {
        let ghost rest = prims@.skip(i as int);
        let ghost before_map = port_map@;
        proof {
            assert(rest[0] == prims@[i as int]);
            assert(rest.drop_first() =~= prims@.skip(i + 1));
        }
        let st = prims[i].exec_comb(port_map);
        match st {
            Ok(s) => {
                proof {
                    lemma_comb_step_len(prims@[i as int], before_map);
                }
                if s == UpdateStatus::Changed {
                    changed = true;
                }
            },
            Err(e) => {
                return Err(e);
            },
        }
        i = i + 1;
    }
    proof {
        assert(prims@.skip(n as int) =~= Seq::<CombPrim>::empty());
    }
    if changed {
        Ok(UpdateStatus::Changed)
    } else {
        Ok(UpdateStatus::Unchanged)
    }
}

/// A constant primitive writes its value exactly once: from an undefined
/// output the first evaluation writes and reports `Changed`, and every later
/// evaluation leaves the map untouched and reports `Unchanged`.
pub proof fn lemma_const_idempotent(map: Seq<Option<Seq<bool>>>, value: Seq<bool>, out: int)
    requires
        0 <= out < map.len(),
        map[out] is None,
    ensures
        ({
            let (m1, s1) = const_step(map, value, out);
            let (m2, s2) = const_step(m1, value, out);
            &&& s1 == UpdateStatus::Changed
            &&& m1[out] == Some(value)
            &&& s2 == UpdateStatus::Unchanged
            &&& m2 == m1
        }),
{
}

/// The mux selects: a defined true condition copies the `TRU` port, a
/// defined false condition the `FAL` port; an undefined condition makes the
/// output undefined, reporting `Unchanged` exactly when it already was.
pub proof fn lemma_mux_selects(map: Seq<Option<Seq<bool>>>, base: int)
    requires
        0 <= base,
        base + 4 <= map.len(),
    ensures
        map[base] == Some(bool_bit(true)) ==> mux_step(map, base).0[base + 3] == map[base + 1]
            || (map[base + 1] is None && mux_step(map, base).0[base + 3] is None),
        map[base] == Some(bool_bit(false)) ==> mux_step(map, base).0[base + 3] == map[base + 2]
            || (map[base + 2] is None && mux_step(map, base).0[base + 3] is None),
        map[base] is None ==> mux_step(map, base).0[base + 3] is None && (map[base + 3] is None
            ==> mux_step(map, base).1 == UpdateStatus::Unchanged),
{
    let cond = map[base];
    if cond == Some(bool_bit(true)) {
        assert(cond->0.len() == 1 && cond->0[0]);
    }
    if cond == Some(bool_bit(false)) {
        assert(cond->0.len() == 1 && !cond->0[0]);
    }
}

/// A wire at each link of a chain: primitive `i` reads port `i` and writes
/// port `i + 1`.
pub open spec fn wire_chain(prims: Seq<CombPrim>, off: int) -> bool {
    forall|i: int|
        0 <= i < prims.len() ==> (#[trigger] prims[i] matches CombPrim::Wire { base } && base
            == off + i)
}

/// Fixpoint termination on an acyclic chain with a freshly-defined input:
/// one full pass in order drives every port from undefined to the driven
/// value and reports `Changed` at each link.
pub proof fn lemma_chain_first_pass(
    prims: Seq<CombPrim>,
    map: Seq<Option<Seq<bool>>>,
    off: int,
    v: Seq<bool>,
)
    requires
        wire_chain(prims, off),
        0 <= off,
        off + prims.len() < map.len(),
        map[off] == Some(v),
        forall|j: int| off < j <= off + prims.len() ==> map[j] is None,
    ensures
        ({
            let r = pass_step(prims, map);
            &&& r is Ok
            &&& r->Ok_0.0.len() == map.len()
            &&& forall|j: int| off <= j <= off + prims.len() ==> r->Ok_0.0[j] == Some(v)
            &&& forall|j: int|
                0 <= j < map.len() && !(off <= j <= off + prims.len()) ==> r->Ok_0.0[j] == map[j]
            &&& prims.len() > 0 ==> r->Ok_0.1 == UpdateStatus::Changed
        }),
    decreases prims.len(),
{
    if prims.len() > 0 {
        assert(prims[0] matches CombPrim::Wire { base } && base == off);
        assert(map[off + 1] is None);
        assert(comb_step(prims[0], map) == Ok::<
            (Seq<Option<Seq<bool>>>, UpdateStatus),
            RuntimeError,
        >((map.update(off + 1, Some(v)), UpdateStatus::Changed)));
        let m1 = map.update(off + 1, Some(v));
        assert(prims.drop_first() =~= prims.skip(1));
        assert(wire_chain(prims.drop_first(), off + 1)) by {
            assert forall|i: int| 0 <= i < prims.len() - 1 implies (#[trigger] prims.drop_first()[
            i] matches CombPrim::Wire { base } && base == off + 1 + i) by {
                assert(prims[i + 1] matches CombPrim::Wire { base } && base == off + i + 1);
            }
        }
        lemma_chain_first_pass(prims.drop_first(), m1, off + 1, v);
        let rr = pass_step(prims.drop_first(), m1);
        assert(rr is Ok);
        assert(pass_step(prims, map) == Ok::<(Seq<Option<Seq<bool>>>, UpdateStatus), RuntimeError>(
            (rr->Ok_0.0, combine_status(UpdateStatus::Changed, rr->Ok_0.1)),
        ));
        assert forall|j: int| off <= j <= off + prims.len() implies pass_step(prims, map)->Ok_0.0[j]
            == Some(v) by {
            if j == off {
                assert(rr->Ok_0.0[off] == m1[off]);
            }
        }
        assert(pass_step(prims, map)->Ok_0.0.len() == map.len());
        assert forall|j: int|
            0 <= j < map.len() && !(off <= j <= off + prims.len()) implies pass_step(
            prims,
            map,
        )->Ok_0.0[j] == map[j] by {
            assert(rr->Ok_0.0[j] == m1[j]);
            assert(m1[j] == map[j]);
        }
    }
}

/// Fixpoint termination, second half: once the chain is settled, the next
/// full pass changes nothing and reports only `Unchanged`.
pub proof fn lemma_chain_second_pass(
    prims: Seq<CombPrim>,
    map: Seq<Option<Seq<bool>>>,
    off: int,
    v: Seq<bool>,
)
    requires
        wire_chain(prims, off),
        0 <= off,
        off + prims.len() < map.len(),
        forall|j: int| off <= j <= off + prims.len() ==> map[j] == Some(v),
    ensures
        pass_step(prims, map) == Ok::<(Seq<Option<Seq<bool>>>, UpdateStatus), RuntimeError>(
            (map, UpdateStatus::Unchanged),
        ),
    decreases prims.len(),
{
    if prims.len() > 0 {
        let m1 = comb_step(prims[0], map)->Ok_0.0;
        assert(m1 =~= map);
        assert(comb_step(prims[0], map)->Ok_0.1 == UpdateStatus::Unchanged);
        assert(prims.drop_first() =~= prims.skip(1));
        assert(wire_chain(prims.drop_first(), off + 1)) by {
            assert forall|i: int| 0 <= i < prims.len() - 1 implies (#[trigger] prims.drop_first()[
            i] matches CombPrim::Wire { base } && base == off + 1 + i) by {
                assert(prims[i + 1] matches CombPrim::Wire { base } && base == off + i + 1);
            }
        }
        lemma_chain_second_pass(prims.drop_first(), map, off + 1, v);
    }
}

} // verus!
