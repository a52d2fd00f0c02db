//! Sets of values: distinct elements, kept in the canonical order.

use vstd::prelude::*;
use crate::order::{canonical, slot, strictly_increasing, tree_order, with_element, Sign};
use crate::order_laws::{lemma_slot_decides, lemma_slot_found, lemma_with_element_increasing};
use crate::value::{trees, Tree, Value};

verus! {

/// A set of values.  Its elements are distinct under structural equality and
/// stand in the canonical order, so two sets with the same elements are the
/// same sequence.
#[derive(Debug, Ord)]
pub struct ValueSet<'a> {
    items: Vec<Value<'a>>,
}

impl<'a> ValueSet<'a> {
    #[verifier::type_invariant]
    spec fn increasing(self) -> bool {
        strictly_increasing(trees(self.items@))
    }

    /// The elements, in the canonical order.
    pub closed spec fn items(&self) -> Seq<Value<'a>> {
        self.items@
    }

    /// The contents of the elements, in the canonical order.
    pub open spec fn elements(&self) -> Seq<Tree> {
        trees(self.items())
    }

    /// The elements of a set are smaller than the set, for recursion.
    pub proof fn lemma_items_smaller(self)
        ensures
            decreases_to!(self => self.items()),
    {
    }

    /// The empty set.
    pub fn new() -> (r: Self)
        ensures
            r.elements() == Seq::<Tree>::empty(),
    {
        ValueSet { items: Vec::new() }
    }

    /// The number of elements.
    pub fn len(&self) -> (r: usize)
        ensures
            r == self.elements().len(),
    {
        self.items.len()
    }

    /// Whether the set has no element.
    pub fn is_empty(&self) -> (r: bool)
        ensures
            r == (self.elements().len() == 0),
    {
        self.items.len() == 0
    }

    /// The elements, in the canonical order.
    pub fn values(&self) -> (r: &Vec<Value<'a>>)
        ensures
            r@ == self.items(),
            strictly_increasing(self.elements()),
    {
        proof {
            use_type_invariant(self);
        }
        &self.items
    }

    /// The number of elements that stand before `value`.
    fn find<'b>(&self, value: &Value<'b>) -> (at: usize)
        ensures
            at == slot(self.elements(), value@),
            at <= self.items().len(),
    {
        let mut at: usize = 0;
        while at < self.items.len()
            invariant
                at <= self.items@.len(),
                forall|j: int|
                    0 <= j < at ==> tree_order(#[trigger] self.elements()[j], value@) is Less,
            ensures
                at == self.items@.len() || !(tree_order(self.elements()[at as int], value@)
                    is Less),
            decreases self.items@.len() - at,
        {
            match self.items[at].compare(value) {
                Sign::Less => {},
                _ => {
                    break ;
                },
            }
            at += 1;
        }
        proof {
            lemma_slot_found(self.elements(), value@, at as int);
        }
        at
    }

    /// Whether an element equal to `value` is in the set.
    pub fn contains<'b>(&self, value: &Value<'b>) -> (r: bool)
        ensures
            r == self.elements().contains(value@),
    {
        let at = self.find(value);
        proof {
            use_type_invariant(self);
            lemma_slot_decides(self.elements(), value@);
        }
        if at < self.items.len() {
            match self.items[at].compare(value) {
                Sign::Equal => true,
                _ => false,
            }
        } else {
            false
        }
    }

    /// Adds `value` unless an equal element is there; says whether it was added.
    pub fn insert(&mut self, value: Value<'a>) -> (added: bool)
        ensures
            final(self).elements() == with_element(old(self).elements(), value@),
            added == !old(self).elements().contains(value@),
    {
        let at = self.find(&value);
        proof {
            use_type_invariant(&*self);
            lemma_slot_decides(self.elements(), value@);
            lemma_with_element_increasing(self.elements(), value@);
        }
        let present = at < self.items.len() && match self.items[at].compare(&value) {
            Sign::Equal => true,
            _ => false,
        };
        if present {
            false
        } else {
            let ghost before = self.elements();
            let mut taken = ValueSet::new();
            std::mem::swap(self, &mut taken);
            let mut items = taken.items;
            items.insert(at, value);
            proof {
                assert(trees(items@) =~= before.insert(at as int, value@));
            }
            *self = ValueSet { items };
            true
        }
    }

    /// The set whose elements are `values`, which stand in the canonical
    /// order already.
    pub(crate) fn from_increasing(values: Vec<Value<'a>>) -> (r: Self)
        requires
            strictly_increasing(trees(values@)),
        ensures
            r.elements() == trees(values@),
    {
        ValueSet { items: values }
    }

    /// The set of the elements of `values`.
    pub fn from_values(values: Vec<Value<'a>>) -> (r: Self)
        ensures
            r.elements() == canonical(trees(values@)),
    {
        let ghost all = trees(values@);
        let mut set = ValueSet::new();
        for value in it: values.into_iter()
            invariant
                all == trees(values@),
                it.seq() == values@,
                set.elements() == canonical(all.subrange(0, it.index() as int)),
        {
            proof {
                let longer = all.subrange(0, it.index() + 1);
                assert(longer.drop_last() == all.subrange(0, it.index() as int));
                assert(longer.last() == value@);
            }
            set.insert(value);
        }
        proof {
            assert(all.subrange(0, all.len() as int) == all);
        }
        set
    }
}

} // verus!
