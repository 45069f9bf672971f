use vstd::prelude::*;

pub mod alg;
pub mod arith;
pub mod cyclotomic;
pub mod graded_algebra;
pub mod graded_ring;
pub mod coxeter_diagram;
pub mod dynkin_diagram;
pub mod numeric;
pub mod square_matrix;
pub mod prufer_group;

pub use prufer_group::PruferGroup;

verus! {

/// The failure taxonomy of the library: invalid construction data,
/// machine-arithmetic overflow during exact computation, an exhausted
/// caller-supplied search bound, and a sign estimate too coarse to decide.
#[derive(Clone, Copy, Debug, PartialEq, Eq, Structural)]
pub enum CoxeterError {
    InvalidConstruction,
    Overflow,
    BoundExceeded,
    AmbiguousSign,
}

} // verus!
