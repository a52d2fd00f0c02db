//! The canonical order of values, and the sequences that stand for sets.
//!
//! Values are ordered first by variant, in the order in which the variants
//! are declared, then by payload: texts by their bytes, aggregates element
//! by element, a shorter sequence before its extensions.

use vstd::prelude::*;
use vstd::string::StringSliceAdditionalSpecFns;
use crate::value::{trees, Tree, Value};

verus! {

/// How one thing stands to another in an order.
#[derive(Debug, Clone, Copy, PartialEq, Eq, Structural)]
pub enum Sign {
    Less,
    Equal,
    Greater,
}

/// The place of a variant in the order of variants.
pub open spec fn rank(tree: Tree) -> int {
    match tree {
        Tree::SimpleString(_) => 0,
        Tree::SimpleError(_) => 1,
        Tree::Integer(_) => 2,
        Tree::BulkString(_) => 3,
        Tree::Array(_) => 4,
        Tree::Null => 5,
        Tree::Boolean(_) => 6,
        Tree::Double(_) => 7,
        Tree::BigNumber(_) => 8,
        Tree::BulkError(_) => 9,
        Tree::VerbatimString(_, _) => 10,
        Tree::MapOf(_, _) => 11,
        Tree::SetOf(_) => 12,
        Tree::Pushes(_) => 13,
    }
}

/// Integers in their usual order.
pub open spec fn int_order(a: int, b: int) -> Sign {
    if a < b {
        Sign::Less
    } else if a == b {
        Sign::Equal
    } else {
        Sign::Greater
    }
}

/// The first of two results that is not `Equal`.
pub open spec fn first_unequal(first: Sign, second: Sign) -> Sign {
    if first is Equal {
        second
    } else {
        first
    }
}

/// Byte sequences in lexicographic order.
pub open spec fn bytes_order(a: Seq<u8>, b: Seq<u8>) -> Sign
    decreases a.len(),
{
    if a.len() == 0 || b.len() == 0 {
        int_order(a.len() as int, b.len() as int)
    } else {
        first_unequal(
            int_order(a[0] as int, b[0] as int),
            bytes_order(a.drop_first(), b.drop_first()),
        )
    }
}

/// The canonical order of values.
pub open spec fn tree_order(a: Tree, b: Tree) -> Sign
    decreases a, 0nat,
{
    match (a, b) {
        (Tree::SimpleString(x), Tree::SimpleString(y)) => bytes_order(x, y),
        (Tree::SimpleError(x), Tree::SimpleError(y)) => bytes_order(x, y),
        (Tree::Integer(x), Tree::Integer(y)) => int_order(x as int, y as int),
        (Tree::BulkString(x), Tree::BulkString(y)) => bytes_order(x, y),
        (Tree::Array(x), Tree::Array(y)) => seq_order(x, y),
        (Tree::Boolean(x), Tree::Boolean(y)) => int_order(
            if x { 1 } else { 0 },
            if y { 1 } else { 0 },
        ),
        (Tree::Double(x), Tree::Double(y)) => bytes_order(x, y),
        (Tree::BigNumber(x), Tree::BigNumber(y)) => bytes_order(x, y),
        (Tree::BulkError(x), Tree::BulkError(y)) => bytes_order(x, y),
        (Tree::VerbatimString(e, x), Tree::VerbatimString(f, y)) => first_unequal(
            bytes_order(e, f),
            bytes_order(x, y),
        ),
        (Tree::MapOf(k, x), Tree::MapOf(l, y)) => first_unequal(
            seq_order(k, l),
            seq_order(x, y),
        ),
        (Tree::SetOf(x), Tree::SetOf(y)) => seq_order(x, y),
        (Tree::Pushes(x), Tree::Pushes(y)) => seq_order(x, y),
        _ => int_order(rank(a), rank(b)),
    }
}

/// Sequences of values in lexicographic order.
pub open spec fn seq_order(a: Seq<Tree>, b: Seq<Tree>) -> Sign
    decreases a, 1nat,
{
    if a.len() == 0 || b.len() == 0 {
        int_order(a.len() as int, b.len() as int)
    } else {
        first_unequal(tree_order(a[0], b[0]), seq_order(a.drop_first(), b.drop_first()))
    }
}

/// Every element stands before all that follow it.
pub open spec fn strictly_increasing(items: Seq<Tree>) -> bool {
    forall|i: int, j: int| 0 <= i < j < items.len() ==> tree_order(items[i], items[j]) is Less
}

/// The number of elements at the start of `items` that stand before `x`.
pub open spec fn slot(items: Seq<Tree>, x: Tree) -> int
    decreases items.len(),
{
    if items.len() > 0 && tree_order(items[0], x) is Less {
        1 + slot(items.drop_first(), x)
    } else {
        0
    }
}

/// `items` with `x` put in its place, unless an equal element is there.
pub open spec fn with_element(items: Seq<Tree>, x: Tree) -> Seq<Tree> {
    let at = slot(items, x);
    if at < items.len() && tree_order(items[at], x) is Equal {
        items
    } else {
        items.insert(at, x)
    }
}

/// The distinct elements of `items` in the canonical order.
pub open spec fn canonical(items: Seq<Tree>) -> Seq<Tree>
    decreases items.len(),
{
    if items.len() == 0 {
        Seq::empty()
    } else {
        with_element(canonical(items.drop_last()), items.last())
    }
}

/// Two byte sequences that agree on their first `n` bytes stand as what
/// follows those bytes does.
pub proof fn lemma_bytes_order_skip(a: Seq<u8>, b: Seq<u8>, n: int)
    requires
        0 <= n <= a.len(),
        n <= b.len(),
        forall|j: int| 0 <= j < n ==> a[j] == b[j],
    ensures
        bytes_order(a, b) == bytes_order(a.skip(n), b.skip(n)),
    decreases n,
{
    if n == 0 {
        assert(a.skip(0) == a);
        assert(b.skip(0) == b);
    } else {
        lemma_bytes_order_skip(a, b, n - 1);
        let x = a.skip(n - 1);
        let y = b.skip(n - 1);
        assert(x[0] == y[0]);
        assert(x.drop_first() == a.skip(n));
        assert(y.drop_first() == b.skip(n));
    }
}

/// Two sequences of values whose first `n` elements are equal in the order
/// stand as what follows those elements does.
pub proof fn lemma_seq_order_skip(a: Seq<Tree>, b: Seq<Tree>, n: int)
    requires
        0 <= n <= a.len(),
        n <= b.len(),
        forall|j: int| 0 <= j < n ==> tree_order(a[j], b[j]) is Equal,
    ensures
        seq_order(a, b) == seq_order(a.skip(n), b.skip(n)),
    decreases n,
{
    if n == 0 {
        assert(a.skip(0) == a);
        assert(b.skip(0) == b);
    } else {
        lemma_seq_order_skip(a, b, n - 1);
        let x = a.skip(n - 1);
        let y = b.skip(n - 1);
        assert(tree_order(x[0], y[0]) is Equal);
        assert(x.drop_first() == a.skip(n));
        assert(y.drop_first() == b.skip(n));
    }
}

/// Compares two numbers.
pub fn compare_numbers(a: i64, b: i64) -> (r: Sign)
    ensures
        r == int_order(a as int, b as int),
{
    if a < b {
        Sign::Less
    } else if a == b {
        Sign::Equal
    } else {
        Sign::Greater
    }
}

/// Compares two lengths.
pub fn compare_lengths(a: usize, b: usize) -> (r: Sign)
    ensures
        r == int_order(a as int, b as int),
{
    if a < b {
        Sign::Less
    } else if a == b {
        Sign::Equal
    } else {
        Sign::Greater
    }
}

/// Compares two byte slices lexicographically.
pub fn compare_bytes(a: &[u8], b: &[u8]) -> (r: Sign)
    ensures
        r == bytes_order(a@, b@),
{
    let mut at: usize = 0;
    while at < a.len() && at < b.len()
        invariant
            at <= a.len(),
            at <= b.len(),
            forall|j: int| 0 <= j < at ==> a@[j] == b@[j],
        decreases a.len() - at,
    {
        if a[at] != b[at] {
            proof {
                lemma_bytes_order_skip(a@, b@, at as int);
            }
            return if a[at] < b[at] {
                Sign::Less
            } else {
                Sign::Greater
            };
        }
        at += 1;
    }
    proof {
        lemma_bytes_order_skip(a@, b@, at as int);
    }
    compare_lengths(a.len(), b.len())
}

/// Compares two texts by their bytes.
pub fn compare_texts(a: &str, b: &str) -> (r: Sign)
    ensures
        r == bytes_order(a.spec_bytes(), b.spec_bytes()),
{
    compare_bytes(a.as_bytes(), b.as_bytes())
}

/// Compares two sequences of values lexicographically.
pub fn compare_all<'a, 'b>(a: &Vec<Value<'a>>, b: &Vec<Value<'b>>) -> (r: Sign)
    ensures
        r == seq_order(trees(a@), trees(b@)),
    decreases a@, 1nat,
{
    let ghost x = trees(a@);
    let ghost y = trees(b@);
    let mut at: usize = 0;
    while at < a.len() && at < b.len()
        invariant
            x == trees(a@),
            y == trees(b@),
            at <= a.len(),
            at <= b.len(),
            forall|j: int| 0 <= j < at ==> tree_order(x[j], y[j]) is Equal,
        decreases a.len() - at,
    {
        let step = a[at].compare(&b[at]);
        match step {
            Sign::Equal => {},
            _ => {
                proof {
                    lemma_seq_order_skip(x, y, at as int);
                }
                return step;
            },
        }
        at += 1;
    }
    proof {
        lemma_seq_order_skip(x, y, at as int);
    }
    compare_lengths(a.len(), b.len())
}

impl<'a> Value<'a> {
    /// The place of this value's variant in the order of variants.
    pub fn rank(&self) -> (r: u8)
        ensures
            r == rank(self@),
    {
        match self {
            Value::SimpleString(_) => 0,
            Value::SimpleError(_) => 1,
            Value::Integer(_) => 2,
            Value::BulkString(_) => 3,
            Value::Array(_) => 4,
            Value::Null => 5,
            Value::Boolean(_) => 6,
            Value::Double(_) => 7,
            Value::BigNumber(_) => 8,
            Value::BulkError(_) => 9,
            Value::VerbatimString(_, _) => 10,
            Value::MapOf(_, _) => 11,
            Value::SetOf(_) => 12,
            Value::Pushes(_) => 13,
        }
    }

    /// How this value stands to `other` in the canonical order.
    pub fn compare<'b>(&self, other: &Value<'b>) -> (r: Sign)
        ensures
            r == tree_order(self@, other@),
        decreases self, 0nat,
    {
        match (self, other) {
            (Value::SimpleString(x), Value::SimpleString(y)) => compare_texts(x, y),
            (Value::SimpleError(x), Value::SimpleError(y)) => compare_texts(x, y),
            (Value::Integer(x), Value::Integer(y)) => compare_numbers(*x, *y),
            (Value::BulkString(x), Value::BulkString(y)) => compare_texts(x, y),
            (Value::Array(x), Value::Array(y)) => compare_all(x, y),
            (Value::Boolean(x), Value::Boolean(y)) => compare_numbers(
                if *x { 1 } else { 0 },
                if *y { 1 } else { 0 },
            ),
            (Value::Double(x), Value::Double(y)) => compare_texts(x.as_str(), y.as_str()),
            (Value::BigNumber(x), Value::BigNumber(y)) => compare_texts(x, y),
            (Value::BulkError(x), Value::BulkError(y)) => compare_texts(x, y),
            (Value::VerbatimString(e, x), Value::VerbatimString(f, y)) => {
                match compare_texts(e, f) {
                    Sign::Equal => compare_texts(x, y),
                    first => first,
                }
            },
            (Value::MapOf(k, x), Value::MapOf(l, y)) => {
                match compare_all(k, l) {
                    Sign::Equal => compare_all(x, y),
                    first => first,
                }
            },
            (Value::SetOf(x), Value::SetOf(y)) => {
                proof {
                    x.lemma_items_smaller();
                }
                compare_all(x.values(), y.values())
            },
            (Value::Pushes(x), Value::Pushes(y)) => compare_all(x, y),
            _ => compare_numbers(self.rank() as i64, other.rank() as i64),
        }
    }
}

} // verus!
