//! Direct all-pairs gravitational dynamics of a fixed population of point
//! masses, advanced in discrete steps.
//!
//! Every quantity is an IEEE 754 single-precision number held as its 32
//! bits, and the arithmetic is done on those bits in software, so that a
//! run gives the same bits on every machine and for every number of
//! workers. The contracts name the result of each arithmetic operation and
//! state everything else exactly.

pub mod body;
pub mod engine;
pub mod galaxy;
pub mod layout;
pub mod partition;
pub mod scalar;
