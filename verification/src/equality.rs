//! `==` on values: structural equality.

use crate::compare::{datum_eq, value_eq};
use crate::value::Value;
use vstd::prelude::*;

verus! {

impl PartialEq for Value {
    fn eq(&self, other: &Value) -> (r: bool) {
        value_eq(self, other)
    }
}

impl vstd::std_specs::cmp::PartialEqSpecImpl for Value {
    open spec fn obeys_eq_spec() -> bool {
        true
    }

    open spec fn eq_spec(&self, other: &Value) -> bool {
        datum_eq(self@, other@)
    }
}

} // verus!
