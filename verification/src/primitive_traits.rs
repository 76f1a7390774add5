//! The simpler, non-port-map primitive interface: a primitive validates its
//! inputs structurally, executes on plain values, and mutates internal state
//! only on a clock tick. Each implementor pins its behaviour with spec-level
//! models, so the trait methods carry real contracts: validation failure
//! halts evaluation with an error, and a given state and inputs always
//! produce the same outputs.

use vstd::prelude::*;
use crate::value::Value;
use crate::port::RuntimeError;
use crate::bits::add_bits;

verus! {

/// The bit patterns of a sequence of values.
pub open spec fn views_of(vals: Seq<Value>) -> Seq<Seq<bool>> {
    vals.map_values(|v: Value| v@)
}

/// A trait indicating that the thing has a name.
pub trait Named {
    /// The name, as characters.
    spec fn spec_name(&self) -> Seq<char>;

    fn get_full_name(&self) -> (r: &String)
        ensures
            r@ == self.spec_name(),
    ;
}

/// A primitive in the validate/execute style: combinational evaluation over
/// input values handed in directly, a per-cycle tick for stateful
/// primitives, and a reset. Inputs and outputs are positional sequences of
/// values; the port names that key them belong to the surrounding circuit
/// builder, which carries the primitive's own name through `Named`.
pub trait Primitive: Named + Sized {
    /// Whether this primitive is combinational: no memory across cycles.
    spec fn spec_is_comb(&self) -> bool;

    /// The structural precondition on the inputs (arity, width match).
    spec fn spec_valid(&self, inputs: Seq<Value>) -> bool;

    /// What execution returns, as a function of the current state and the
    /// inputs alone: the bit patterns of the outputs, or the error.
    spec fn spec_output(&self, inputs: Seq<Value>) -> Result<Seq<Seq<bool>>, RuntimeError>;

    /// What a reset returns, as a function of state and inputs alone.
    spec fn spec_reset(&self, inputs: Seq<Value>) -> Result<Seq<Seq<bool>>, RuntimeError>;

    /// Whether this primitive carries internal state worth dumping.
    spec fn spec_serializable(&self) -> bool;

    /// True if this primitive is combinational.
    fn is_comb(&self) -> (r: bool)
        ensures
            r == self.spec_is_comb(),
    ;

    /// Checks the structural preconditions (arity, width match) of the
    /// inputs, and nothing else: it decides exactly `spec_valid`.
    fn validate(&self, inputs: &Vec<Value>) -> (r: bool)
        ensures
            r == self.spec_valid(inputs@),
    ;

    /// Executes the primitive on its inputs. The result is the deterministic
    /// `spec_output` of the state at the call and the inputs: equal states
    /// and equal inputs give identical outputs.
    fn execute(&mut self, inputs: &Vec<Value>) -> (r: Result<Vec<Value>, RuntimeError>)
        ensures
            match r {
                Ok(out) => old(self).spec_output(inputs@) == Ok::<Seq<Seq<bool>>, RuntimeError>(
                    views_of(out@),
                ),
                Err(e) => old(self).spec_output(inputs@) == Err::<Seq<Seq<bool>>, RuntimeError>(e),
            },
    ;

    /// Does nothing for combinational primitives; mutates internal state for
    /// stateful ones. Invoked once per clock edge only.
    fn do_tick(&mut self) -> (r: Result<Vec<Value>, RuntimeError>)
        ensures
            old(self).spec_is_comb() ==> *final(self) == *old(self) && (match r {
                Ok(out) => out@.len() == 0,
                Err(_) => false,
            }),
    ;

    /// Resets the primitive; the result is the deterministic `spec_reset` of
    /// the state at the call and the inputs.
    fn reset(&mut self, inputs: &Vec<Value>) -> (r: Result<Vec<Value>, RuntimeError>)
        ensures
            match r {
                Ok(out) => old(self).spec_reset(inputs@) == Ok::<Seq<Seq<bool>>, RuntimeError>(
                    views_of(out@),
                ),
                Err(e) => old(self).spec_reset(inputs@) == Err::<Seq<Seq<bool>>, RuntimeError>(e),
            },
    ;

    /// Whether this primitive carries internal state worth dumping; the
    /// dump itself belongs to the surrounding tooling, not to this core.
    fn has_serializeable_state(&self) -> (r: bool)
        ensures
            r == self.spec_serializable(),
    ;

    /// Validation before execution: on inputs that violate the structural
    /// preconditions, evaluation halts with an error, the state is left
    /// untouched and `execute` is never reached; on validated inputs the
    /// result is exactly `execute`'s.
    fn validate_and_execute(&mut self, inputs: &Vec<Value>) -> (r: Result<
        Vec<Value>,
        RuntimeError,
    >)
        ensures
            !old(self).spec_valid(inputs@) ==> (r matches Err(e) && e
                == RuntimeError::ValidationFailed) && *final(self) == *old(self),
            old(self).spec_valid(inputs@) ==> match r {
                Ok(out) => old(self).spec_output(inputs@) == Ok::<Seq<Seq<bool>>, RuntimeError>(
                    views_of(out@),
                ),
                Err(e) => old(self).spec_output(inputs@) == Err::<Seq<Seq<bool>>, RuntimeError>(e),
            },
    {
        if self.validate(inputs) {
            self.execute(inputs)
        } else {
            Err(RuntimeError::ValidationFailed)
        }
    }
}

/// The adder in the validate/execute style: two equal-width inputs, one
/// wraparound sum.
pub struct StdAdd {
    name: String,
    width: usize,
}

impl StdAdd {
    pub closed spec fn spec_width(&self) -> nat {
        self.width as nat
    }

    pub fn new(name: String, width: usize) -> (r: StdAdd)
        ensures
            r.spec_width() == width,
            r.spec_name() == name@,
    {
        StdAdd { name, width }
    }

    /// The sum of two validated inputs, exactly the wraparound addition.
    pub fn sum(&self, inputs: &Vec<Value>) -> (r: Result<Vec<Value>, RuntimeError>)
        ensures
            match r {
                Ok(out) => inputs@.len() == 2 && inputs@[0].spec_width() == self.spec_width()
                    && inputs@[1].spec_width() == self.spec_width() && out@.len() == 1
                    && out@[0]@ == add_bits(inputs@[0]@, inputs@[1]@),
                Err(e) => e == RuntimeError::ValidationFailed && (inputs@.len() != 2
                    || inputs@[0].spec_width() != self.spec_width()
                    || inputs@[1].spec_width() != self.spec_width()),
            },
    {
        if inputs.len() != 2 {
            return Err(RuntimeError::ValidationFailed);
        }
        if inputs[0].width() != self.width || inputs[1].width() != self.width {
            return Err(RuntimeError::ValidationFailed);
        }
        let total = inputs[0].add(&inputs[1]);
        let mut out: Vec<Value> = Vec::new();
        out.push(total);
        Ok(out)
    }
}

impl Named for StdAdd {
    closed spec fn spec_name(&self) -> Seq<char> {
        self.name@
    }

    fn get_full_name(&self) -> (r: &String) {
        &self.name
    }
}

impl Primitive for StdAdd {
    closed spec fn spec_is_comb(&self) -> bool {
        true
    }

    closed spec fn spec_valid(&self, inputs: Seq<Value>) -> bool {
        inputs.len() == 2 && inputs[0].spec_width() == self.spec_width()
            && inputs[1].spec_width() == self.spec_width()
    }

    closed spec fn spec_output(&self, inputs: Seq<Value>) -> Result<Seq<Seq<bool>>, RuntimeError> {
        if self.spec_valid(inputs) {
            Ok(seq![add_bits(inputs[0]@, inputs[1]@)])
        } else {
            Err(RuntimeError::ValidationFailed)
        }
    }

    closed spec fn spec_reset(&self, inputs: Seq<Value>) -> Result<Seq<Seq<bool>>, RuntimeError> {
        if inputs.len() == 2 {
            Ok(Seq::empty())
        } else {
            Err(RuntimeError::ValidationFailed)
        }
    }

    closed spec fn spec_serializable(&self) -> bool {
        false
    }

    fn is_comb(&self) -> (r: bool) {
        true
    }

    fn validate(&self, inputs: &Vec<Value>) -> (r: bool) {
        inputs.len() == 2 && inputs[0].width() == self.width && inputs[1].width() == self.width
    }

    fn execute(&mut self, inputs: &Vec<Value>) -> (r: Result<Vec<Value>, RuntimeError>) {
        let r = self.sum(inputs);
        proof {
            match &r {
                Ok(out) => {
                    assert(views_of(out@) =~= seq![add_bits(inputs@[0]@, inputs@[1]@)]);
                },
                Err(_) => {},
            }
        }
        r
    }

    fn do_tick(&mut self) -> (r: Result<Vec<Value>, RuntimeError>) {
        Ok(Vec::new())
    }

    fn reset(&mut self, inputs: &Vec<Value>) -> (r: Result<Vec<Value>, RuntimeError>) {
        if inputs.len() != 2 {
            return Err(RuntimeError::ValidationFailed);
        }
        let out: Vec<Value> = Vec::new();
        proof {
            assert(views_of(out@) =~= Seq::<Seq<bool>>::empty());
        }
        Ok(out)
    }

    fn has_serializeable_state(&self) -> (r: bool) {
        false
    }
}

} // verus!
