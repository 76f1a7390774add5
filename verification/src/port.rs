//! Port values and the shared port map: every primitive input and output is
//! a port holding either a written bit-vector value or the explicit
//! "undefined" state, and primitives communicate only through the map.

use vstd::prelude::*;
use crate::value::Value;

verus! {

/// Convergence signal of one combinational evaluation call: `Changed` when an
/// output port was newly written or altered, `Unchanged` when the call was a
/// no-op. The external fixpoint loop stops once a full pass reports only
/// `Unchanged`.
#[derive(PartialEq, Eq, Structural, Clone, Copy, Debug)]
pub enum UpdateStatus {
    Unchanged,
    Changed,
}

/// The structural contract violations the core fails fast on.
#[derive(PartialEq, Eq, Structural, Clone, Copy, Debug)]
pub enum RuntimeError {
    /// Operand widths disagree on an operation requiring equality.
    WidthMismatch,
    /// An operation that requires a defined value received an undefined port.
    UndefinedInput,
    /// A structural precondition (arity, width) failed before execution.
    ValidationFailed,
}

/// What one evaluation call returns.
pub type UpdateResult = Result<UpdateStatus, RuntimeError>;

/// A stable integer handle into the port map.
pub type GlobalPortIdx = usize;

/// A port's current state: undefined because never driven (or withdrawn), or
/// defined by a cell's write.
pub enum PortValue {
    Undef,
    Cell(Value),
}

impl View for PortValue {
    type V = Option<Seq<bool>>;

    open spec fn view(&self) -> Option<Seq<bool>> {
        match self {
            PortValue::Undef => None,
            PortValue::Cell(v) => Some(v@),
        }
    }
}

impl PortValue {
    /// True when the port has not been driven.
    pub fn is_undef(&self) -> (r: bool)
        ensures
            r == (self@ is None),
    {
        match self {
            PortValue::Undef => true,
            PortValue::Cell(_) => false,
        }
    }

    /// True when the port holds a value.
    pub fn is_def(&self) -> (r: bool)
        ensures
            r == (self@ is Some),
    {
        !self.is_undef()
    }

    /// The contained value, or nothing when undefined: an undefined port is
    /// never coerced to a default.
    pub fn val(&self) -> (r: Option<&Value>)
        ensures
            match r {
                Some(v) => self@ == Some(v@),
                None => self@ is None,
            },
    {
        match self {
            PortValue::Undef => None,
            PortValue::Cell(v) => Some(v),
        }
    }

    /// Reads the port as a boolean condition: defined and exactly one bit
    /// wide, with that bit as the answer; anything else gives nothing.
    pub fn as_bool(&self) -> (r: Option<bool>)
        ensures
            match r {
                Some(b) => self@ is Some && self@->0.len() == 1 && b == self@->0[0],
                None => self@ is None || self@->0.len() != 1,
            },
    {
        match self {
            PortValue::Undef => None,
            PortValue::Cell(v) => {
                if v.width() == 1 {
                    Some(v.bit(0))
                } else {
                    None
                }
            },
        }
    }
}

/// The shared arena of port values, indexed by stable handles. The only
/// shared mutable resource of the core: each primitive writes only its own
/// output ports.
pub struct PortMap {
    ports: Vec<PortValue>,
}

impl View for PortMap {
    type V = Seq<Option<Seq<bool>>>;

    closed spec fn view(&self) -> Seq<Option<Seq<bool>>> {
        Seq::new(self.ports@.len(), |i: int| self.ports@[i]@)
    }
}

impl PortMap {
    /// A fresh map with every port undefined: the state at simulation reset.
    pub fn new(len: usize) -> (r: PortMap)
        ensures
            r@.len() == len,
            forall|i: int| 0 <= i < len ==> r@[i] is None,
    {
        let mut ports: Vec<PortValue> = Vec::new();
        let mut i: usize = 0;
        while i < len
            invariant
                i <= len,
                ports@.len() == i,
                forall|j: int| 0 <= j < i ==> ports@[j]@ is None,
            decreases len - i,
        {
            ports.push(PortValue::Undef);
            i = i + 1;
        }
        PortMap { ports }
    }

    pub fn len(&self) -> (r: usize)
        ensures
            r == self@.len(),
    {
        self.ports.len()
    }

    /// Reads one port.
    pub fn read(&self, idx: GlobalPortIdx) -> (r: &PortValue)
        requires
            idx < self@.len(),
        ensures
            r@ == self@[idx as int],
    {
        &self.ports[idx]
    }

    /// Reads a port in a context that requires definedness: an undefined
    /// port is refused explicitly, never coerced to a default.
    pub fn read_defined(&self, idx: GlobalPortIdx) -> (r: Result<&Value, RuntimeError>)
        requires
            idx < self@.len(),
        ensures
            match r {
                Ok(v) => self@[idx as int] == Some(v@),
                Err(e) => self@[idx as int] is None && e == RuntimeError::UndefinedInput,
            },
    {
        match &self.ports[idx] {
            PortValue::Undef => Err(RuntimeError::UndefinedInput),
            PortValue::Cell(v) => Ok(v),
        }
    }

    /// Writes a value to a port, reporting whether the port changed: the
    /// convergence signal the fixpoint loop relies on.
    pub fn insert_val(&mut self, idx: GlobalPortIdx, value: Value) -> (st: UpdateStatus)
        requires
            idx < old(self)@.len(),
        ensures
            final(self)@ == old(self)@.update(idx as int, Some(value@)),
            st == (if old(self)@[idx as int] == Some(value@) {
                UpdateStatus::Unchanged
            } else {
                UpdateStatus::Changed
            }),
    {
        let changed: bool = match &self.ports[idx] {
            PortValue::Undef => true,
            PortValue::Cell(w) => !w.same_as(&value),
        };
        self.ports[idx] = PortValue::Cell(value);
        proof {
            assert(final(self)@ =~= old(self)@.update(idx as int, final(self)@[idx as int]));
        }
        if changed {
            UpdateStatus::Changed
        } else {
            UpdateStatus::Unchanged
        }
    }

    /// Marks a port undefined, reporting whether that is a transition: the
    /// fixpoint engine must see a move into undefined as a change.
    pub fn write_undef(&mut self, idx: GlobalPortIdx) -> (st: UpdateStatus)
        requires
            idx < old(self)@.len(),
        ensures
            final(self)@ == old(self)@.update(idx as int, None),
            st == (if old(self)@[idx as int] is None {
                UpdateStatus::Unchanged
            } else {
                UpdateStatus::Changed
            }),
    {
        let changed: bool = self.ports[idx].is_def();
        self.ports[idx] = PortValue::Undef;
        proof {
            assert(final(self)@ =~= old(self)@.update(idx as int, None));
        }
        if changed {
            UpdateStatus::Changed
        } else {
            UpdateStatus::Unchanged
        }
    }
}

} // verus!
