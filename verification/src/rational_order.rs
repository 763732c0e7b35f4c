//! The order of rationals, by comparing cross products.
use vstd::prelude::*;
use std::cmp::Ordering;
use vstd::std_specs::cmp::PartialOrdSpecImpl;
use crate::rational::{Rational, cross_products};

verus! {

impl PartialOrd for Rational {
    fn partial_cmp(&self, other: &Rational) -> (r: Option<Ordering>) {
        let (l, r) = cross_products(self, other);
        if l < r {
            Some(Ordering::Less)
        } else if l == r {
            Some(Ordering::Equal)
        } else {
            Some(Ordering::Greater)
        }
    }
}

impl PartialOrdSpecImpl for Rational {
    open spec fn obeys_partial_cmp_spec() -> bool {
        true
    }

    open spec fn partial_cmp_spec(&self, other: &Rational) -> Option<Ordering> {
        if self.less(*other) {
            Some(Ordering::Less)
        } else if other.less(*self) {
            Some(Ordering::Greater)
        } else {
            Some(Ordering::Equal)
        }
    }
}

} // verus!
