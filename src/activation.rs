//! The activation functions the library names. Their arithmetic is supplied through
//! [`crate::scalar::Activation`] by the numeric type in use; here they carry their identity.
use vstd::prelude::*;

verus! {

/// `phi(x) = x`, `phi'(x) = 1`.
#[derive(Debug, Default, Clone, Copy, PartialEq, Eq, Structural)]
pub struct Identity;

/// `phi(x) = 1 / (1 + e^-x)`, `phi'(x) = phi(x) (1 - phi(x))`.
#[derive(Debug, Default, Clone, Copy, PartialEq, Eq, Structural)]
pub struct Sigmoid;

/// `phi(x) = tanh(x)`, `phi'(x) = 1 - tanh(x)^2`.
#[derive(Debug, Default, Clone, Copy, PartialEq, Eq, Structural)]
pub struct Tanh;

impl Identity {
    /// The stable name, used in diagnostics.
    pub fn name(&self) -> (r: &'static str)
        ensures
            r@ == "identity"@,
    {
        proof {
            reveal_strlit("identity");
        }
        "identity"
    }
}

impl Sigmoid {
    /// The stable name, used in diagnostics.
    pub fn name(&self) -> (r: &'static str)
        ensures
            r@ == "sigmoid"@,
    {
        proof {
            reveal_strlit("sigmoid");
        }
        "sigmoid"
    }
}

impl Tanh {
    /// The stable name, used in diagnostics.
    pub fn name(&self) -> (r: &'static str)
        ensures
            r@ == "tanh"@,
    {
        proof {
            reveal_strlit("tanh");
        }
        "tanh"
    }
}

} // verus!
