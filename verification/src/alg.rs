use crate::cyclotomic::Cyclotomic;
use crate::CoxeterError;
use vstd::prelude::*;

verus! {

/// An additive operation, fallible on machine overflow.
pub trait AdditiveMagma: Sized {
    fn add(&self, rhs: &Self) -> Result<Self, CoxeterError>;
}

/// An additive identity with an exact zero test.
pub trait AdditiveIdentity: Sized {
    fn zero() -> Self;

    fn is_zero(&self) -> Result<bool, CoxeterError>;
}

/// An additive inverse.
pub trait AdditiveInverse: Sized {
    fn neg(&self) -> Self;
}

/// A multiplicative operation, fallible on machine overflow.
pub trait MultiplicativeMagma: Sized {
    fn mul(&self, rhs: &Self) -> Result<Self, CoxeterError>;
}

/// A multiplicative identity with an exact unit test.
pub trait MultiplicativeIdentity: Sized {
    fn one() -> Self;

    fn is_one(&self) -> Result<bool, CoxeterError>;
}

/// The single ring capability the classification code builds on.
pub trait Ring: AdditiveMagma + AdditiveIdentity + AdditiveInverse + MultiplicativeMagma + MultiplicativeIdentity {

}

impl AdditiveMagma for Cyclotomic {
    fn add(&self, rhs: &Self) -> Result<Self, CoxeterError> {
        if crate::cyclotomic::exec_wf(self) && crate::cyclotomic::exec_wf(rhs) {
            Cyclotomic::add(self, rhs)
        } else {
            Err(CoxeterError::InvalidConstruction)
        }
    }
}

impl AdditiveIdentity for Cyclotomic {
    fn zero() -> Self {
        Cyclotomic::zero()
    }

    fn is_zero(&self) -> Result<bool, CoxeterError> {
        if crate::cyclotomic::exec_wf(self) {
            Cyclotomic::is_zero(self)
        } else {
            Err(CoxeterError::InvalidConstruction)
        }
    }
}

impl AdditiveInverse for Cyclotomic {
    fn neg(&self) -> Self {
        if crate::cyclotomic::exec_wf(self) {
            Cyclotomic::neg(self)
        } else {
            Cyclotomic::zero()
        }
    }
}

impl MultiplicativeMagma for Cyclotomic {
    fn mul(&self, rhs: &Self) -> Result<Self, CoxeterError> {
        if crate::cyclotomic::exec_wf(self) && crate::cyclotomic::exec_wf(rhs) {
            Cyclotomic::mul(self, rhs)
        } else {
            Err(CoxeterError::InvalidConstruction)
        }
    }
}

impl MultiplicativeIdentity for Cyclotomic {
    fn one() -> Self {
        Cyclotomic::one()
    }

    fn is_one(&self) -> Result<bool, CoxeterError> {
        if crate::cyclotomic::exec_wf(self) {
            Cyclotomic::is_one(self)
        } else {
            Err(CoxeterError::InvalidConstruction)
        }
    }
}

impl Ring for Cyclotomic {

}

} // verus!
