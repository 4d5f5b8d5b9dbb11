//! Flow values: what an exploration carries along the edges.

use vstd::prelude::*;

verus! {

/// The product `this * other * multiplicand` of two flows and a count.
pub open spec fn scaled_product(this: nat, other: nat, multiplicand: nat) -> nat {
    this * other * multiplicand
}

/// The operation `self * other * multiplicand` on a flow value.
pub trait ScaleReduce: Sized {
    /// The number that a flow value stands for.
    spec fn amount(self) -> nat;

    /// Whether the scaled product of these values can be held.
    spec fn scale_reduce_fits(self, other: Self, multiplicand: usize) -> bool;

    /// Reduces `self` with `other` and scales the product with `multiplicand`.
    fn scale_reduce(self, other: Self, multiplicand: usize) -> (product: Self)
        requires
            self.scale_reduce_fits(other, multiplicand),
        ensures
            product.amount() == scaled_product(
                self.amount(),
                other.amount(),
                multiplicand as nat,
            ),
    ;
}

impl ScaleReduce for u64 {
    open spec fn amount(self) -> nat {
        self as nat
    }

    open spec fn scale_reduce_fits(self, other: u64, multiplicand: usize) -> bool {
        &&& self * other <= u64::MAX
        &&& self * other * multiplicand <= u64::MAX
    }

    fn scale_reduce(self, other: u64, multiplicand: usize) -> (product: u64) {
        self * other * (multiplicand as u64)
    }
}

/// The scaled product of two `u64` flows, or `None` where it cannot be held
/// in a `u64`.
pub fn checked_scale_reduce(this: u64, other: u64, multiplicand: usize) -> (product: Option<u64>)
    ensures
        product.is_some() <==> this.scale_reduce_fits(other, multiplicand),
        product.is_some() ==> product.unwrap() as nat == scaled_product(
            this as nat,
            other as nat,
            multiplicand as nat,
        ),
{
    match this.checked_mul(other) {
        None => None,
        Some(pair) => match pair.checked_mul(multiplicand as u64) {
            None => None,
            Some(_) => Some(this.scale_reduce(other, multiplicand)),
        },
    }
}

} // verus!
