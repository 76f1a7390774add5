//! Execution core for a hardware-circuit interpreter: width-exact bit-vector
//! values, port values with an explicit undefined state, and the combinational
//! primitive catalog together with its `Changed`/`Unchanged` update protocol.

pub mod bits;
pub mod fraction;
pub mod combinational;
pub mod port;
pub mod primitive_traits;
pub mod value;
