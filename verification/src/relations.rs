//! Equality, order and copies of values through the standard traits.
//!
//! `==` is equality of contents, `<` the canonical order, and a clone has
//! the contents of the value it was made from.  `Ord` is derived on `Value`
//! and `ValueSet`; it compares variant by variant and field by field, and
//! nothing is proved of it.

use vstd::prelude::*;
use vstd::std_specs::cmp::{PartialEqSpecImpl, PartialOrdSpecImpl};
use core::cmp::Ordering;
use crate::order::{compare_all, seq_order, tree_order, Sign};
use crate::order_laws::{
    lemma_order_equal, lemma_order_reflexive, lemma_seq_order_equal, lemma_seq_order_reflexive,
};
use crate::set::ValueSet;
use crate::value::{trees, Value};

verus! {

impl<'a> PartialEq for Value<'a> {
    fn eq(&self, other: &Self) -> (r: bool) {
        proof {
            lemma_order_reflexive(self@);
            if tree_order(self@, other@) is Equal {
                lemma_order_equal(self@, other@);
            }
        }
        match self.compare(other) {
            Sign::Equal => true,
            _ => false,
        }
    }
}

impl<'a> PartialEqSpecImpl for Value<'a> {
    open spec fn obeys_eq_spec() -> bool {
        true
    }

    open spec fn eq_spec(&self, other: &Self) -> bool {
        self@ == other@
    }
}

impl<'a> Eq for Value<'a> {

}

impl<'a> PartialOrd for Value<'a> {
    fn partial_cmp(&self, other: &Self) -> (r: Option<Ordering>) {
        match self.compare(other) {
            Sign::Less => Some(Ordering::Less),
            Sign::Equal => Some(Ordering::Equal),
            Sign::Greater => Some(Ordering::Greater),
        }
    }
}

impl<'a> PartialOrdSpecImpl for Value<'a> {
    open spec fn obeys_partial_cmp_spec() -> bool {
        true
    }

    open spec fn partial_cmp_spec(&self, other: &Self) -> Option<Ordering> {
        match tree_order(self@, other@) {
            Sign::Less => Some(Ordering::Less),
            Sign::Equal => Some(Ordering::Equal),
            Sign::Greater => Some(Ordering::Greater),
        }
    }
}

impl<'a> PartialEq for ValueSet<'a> {
    fn eq(&self, other: &Self) -> (r: bool) {
        proof {
            lemma_seq_order_reflexive(self.elements());
            if seq_order(self.elements(), other.elements()) is Equal {
                lemma_seq_order_equal(self.elements(), other.elements());
            }
        }
        match compare_all(self.values(), other.values()) {
            Sign::Equal => true,
            _ => false,
        }
    }
}

impl<'a> PartialEqSpecImpl for ValueSet<'a> {
    open spec fn obeys_eq_spec() -> bool {
        true
    }

    open spec fn eq_spec(&self, other: &Self) -> bool {
        self.elements() == other.elements()
    }
}

impl<'a> Eq for ValueSet<'a> {

}

impl<'a> PartialOrd for ValueSet<'a> {
    fn partial_cmp(&self, other: &Self) -> (r: Option<Ordering>) {
        match compare_all(self.values(), other.values()) {
            Sign::Less => Some(Ordering::Less),
            Sign::Equal => Some(Ordering::Equal),
            Sign::Greater => Some(Ordering::Greater),
        }
    }
}

impl<'a> PartialOrdSpecImpl for ValueSet<'a> {
    open spec fn obeys_partial_cmp_spec() -> bool {
        true
    }

    open spec fn partial_cmp_spec(&self, other: &Self) -> Option<Ordering> {
        match seq_order(self.elements(), other.elements()) {
            Sign::Less => Some(Ordering::Less),
            Sign::Equal => Some(Ordering::Equal),
            Sign::Greater => Some(Ordering::Greater),
        }
    }
}

/// A value for each value of `values`, with the same contents.
pub fn clone_all<'a>(values: &Vec<Value<'a>>) -> (r: Vec<Value<'a>>)
    ensures
        trees(r@) == trees(values@),
    decreases values@, 1nat,
{
    let mut copies: Vec<Value<'a>> = Vec::new();
    let mut at: usize = 0;
    while at < values.len()
        invariant
            at <= values.len(),
            copies@.len() == at,
            forall|j: int| 0 <= j < at ==> (#[trigger] copies@[j])@ == values@[j]@,
        decreases values.len() - at,
    {
        let copy = values[at].clone();
        copies.push(copy);
        at += 1;
    }
    proof {
        assert(trees(copies@) =~= trees(values@));
    }
    copies
}

impl<'a> Clone for Value<'a> {
    fn clone(&self) -> (r: Self)
        ensures
            r@ == self@,
        decreases self, 0nat,
    {
        match self {
            Value::SimpleString(s) => Value::SimpleString(s),
            Value::SimpleError(s) => Value::SimpleError(s),
            Value::Integer(i) => Value::Integer(*i),
            Value::BulkString(s) => Value::BulkString(s),
            Value::Array(v) => Value::Array(clone_all(v)),
            Value::Null => Value::Null,
            Value::Boolean(b) => Value::Boolean(*b),
            Value::Double(s) => Value::Double(s.clone()),
            Value::BigNumber(s) => Value::BigNumber(s),
            Value::BulkError(s) => Value::BulkError(s),
            Value::VerbatimString(e, s) => Value::VerbatimString(e, s),
            Value::MapOf(k, v) => Value::MapOf(clone_all(k), clone_all(v)),
            Value::SetOf(s) => {
                proof {
                    s.lemma_items_smaller();
                }
                Value::SetOf(ValueSet::from_increasing(clone_all(s.values())))
            },
            Value::Pushes(v) => Value::Pushes(clone_all(v)),
        }
    }
}

impl<'a> Clone for ValueSet<'a> {
    fn clone(&self) -> (r: Self)
        ensures
            r.elements() == self.elements(),
    {
        ValueSet::from_increasing(clone_all(self.values()))
    }
}

} // verus!
