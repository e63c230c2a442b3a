//! The modulus of the integers modulo `p`, as a value that is handed to the
//! operations that need it.

use crate::integer::val;
use rug::Integer;
use vstd::prelude::*;

verus! {

/// A modulus `p > 1`.
#[allow(non_camel_case_types)]
#[derive(Debug)]
pub struct ZZ_pContext {
    p: Integer,
}

impl ZZ_pContext {
    #[verifier::type_invariant]
    spec fn inv(&self) -> bool {
        val(self.p) > 1
    }

    /// The modulus as a number.
    pub closed spec fn modulus_of(&self) -> int {
        val(self.p)
    }

    /// The context of the modulus `p`, which has to be larger than one.
    pub fn new(p: Integer) -> (c: Self)
        requires
            val(p) > 1,
        ensures
            c.modulus_of() == val(p),
    {
        ZZ_pContext { p }
    }

    /// The modulus.
    pub fn modulus(&self) -> (p: &Integer)
        ensures
            val(*p) == self.modulus_of(),
            val(*p) > 1,
    {
        proof {
            use_type_invariant(self);
        }
        &self.p
    }
}

/// A residue modulo the `p` of its context.
#[allow(non_camel_case_types)]
#[derive(Debug)]
pub struct ZZ_p {
    value: Integer,
    context: ZZ_pContext,
}

impl ZZ_p {
    /// The number that stands for the residue.
    pub closed spec fn value_of(&self) -> int {
        val(self.value)
    }

    /// The modulus of the residue.
    pub closed spec fn modulus_of(&self) -> int {
        self.context.modulus_of()
    }

    /// The residue of `value` in `context`.
    pub fn new(value: Integer, context: ZZ_pContext) -> (r: Self)
        ensures
            r.value_of() == val(value),
            r.modulus_of() == context.modulus_of(),
    {
        ZZ_p { value, context }
    }
}

impl Clone for ZZ_pContext {
    fn clone(&self) -> (r: Self)
        ensures
            r.modulus_of() == self.modulus_of(),
    {
        proof {
            use_type_invariant(self);
        }
        ZZ_pContext { p: self.p.clone() }
    }
}

impl Clone for ZZ_p {
    fn clone(&self) -> (r: Self)
        ensures
            r.value_of() == self.value_of(),
            r.modulus_of() == self.modulus_of(),
    {
        ZZ_p { value: self.value.clone(), context: self.context.clone() }
    }
}

} // verus!
