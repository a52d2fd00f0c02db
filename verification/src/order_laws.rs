//! The canonical order is a strict total order, and what follows from that
//! for the sequences that stand for sets.

use vstd::prelude::*;
use crate::order::{
    bytes_order, canonical, rank, seq_order, slot, strictly_increasing, tree_order, with_element,
};
use crate::value::Tree;

verus! {

/// A byte sequence stands equal to itself.
pub proof fn lemma_bytes_order_reflexive(a: Seq<u8>)
    ensures
        bytes_order(a, a) is Equal,
    decreases a.len(),
{
    if a.len() > 0 {
        lemma_bytes_order_reflexive(a.drop_first());
    }
}

/// Only equal byte sequences stand equal.
pub proof fn lemma_bytes_order_equal(a: Seq<u8>, b: Seq<u8>)
    requires
        bytes_order(a, b) is Equal,
    ensures
        a == b,
    decreases a.len(),
{
    if a.len() == 0 || b.len() == 0 {
        assert(a =~= b);
    } else {
        lemma_bytes_order_equal(a.drop_first(), b.drop_first());
        assert(a =~= seq![a[0]] + a.drop_first());
        assert(b =~= seq![b[0]] + b.drop_first());
    }
}

/// Swapping the two sides swaps `Less` and `Greater`.
pub proof fn lemma_bytes_order_flip(a: Seq<u8>, b: Seq<u8>)
    ensures
        bytes_order(a, b) is Less <==> bytes_order(b, a) is Greater,
        bytes_order(a, b) is Equal <==> bytes_order(b, a) is Equal,
    decreases a.len(),
{
    if a.len() > 0 && b.len() > 0 {
        lemma_bytes_order_flip(a.drop_first(), b.drop_first());
    }
}

/// `Less` is transitive on byte sequences.
pub proof fn lemma_bytes_order_transitive(a: Seq<u8>, b: Seq<u8>, c: Seq<u8>)
    requires
        bytes_order(a, b) is Less,
        bytes_order(b, c) is Less,
    ensures
        bytes_order(a, c) is Less,
    decreases a.len(),
{
    if a.len() > 0 && b.len() > 0 && c.len() > 0 {
        if a[0] == b[0] && b[0] == c[0] {
            lemma_bytes_order_transitive(a.drop_first(), b.drop_first(), c.drop_first());
        }
    }
}

/// A value stands equal to itself.
pub proof fn lemma_order_reflexive(a: Tree)
    ensures
        tree_order(a, a) is Equal,
    decreases a, 0nat,
{
    match a {
        Tree::SimpleString(x) => lemma_bytes_order_reflexive(x),
        Tree::SimpleError(x) => lemma_bytes_order_reflexive(x),
        Tree::BulkString(x) => lemma_bytes_order_reflexive(x),
        Tree::Double(x) => lemma_bytes_order_reflexive(x),
        Tree::BigNumber(x) => lemma_bytes_order_reflexive(x),
        Tree::BulkError(x) => lemma_bytes_order_reflexive(x),
        Tree::VerbatimString(e, x) => {
            lemma_bytes_order_reflexive(e);
            lemma_bytes_order_reflexive(x);
        },
        Tree::Array(x) => lemma_seq_order_reflexive(x),
        Tree::MapOf(k, x) => {
            lemma_seq_order_reflexive(k);
            lemma_seq_order_reflexive(x);
        },
        Tree::SetOf(x) => lemma_seq_order_reflexive(x),
        Tree::Pushes(x) => lemma_seq_order_reflexive(x),
        _ => {},
    }
}

/// A sequence of values stands equal to itself.
pub proof fn lemma_seq_order_reflexive(a: Seq<Tree>)
    ensures
        seq_order(a, a) is Equal,
    decreases a, 1nat,
{
    if a.len() > 0 {
        lemma_order_reflexive(a[0]);
        lemma_seq_order_reflexive(a.drop_first());
    }
}

/// Only equal values stand equal: the order tells apart whatever structural
/// equality tells apart.
pub proof fn lemma_order_equal(a: Tree, b: Tree)
    requires
        tree_order(a, b) is Equal,
    ensures
        a == b,
    decreases a, 0nat,
{
    match (a, b) {
        (Tree::SimpleString(x), Tree::SimpleString(y)) => lemma_bytes_order_equal(x, y),
        (Tree::SimpleError(x), Tree::SimpleError(y)) => lemma_bytes_order_equal(x, y),
        (Tree::BulkString(x), Tree::BulkString(y)) => lemma_bytes_order_equal(x, y),
        (Tree::Double(x), Tree::Double(y)) => lemma_bytes_order_equal(x, y),
        (Tree::BigNumber(x), Tree::BigNumber(y)) => lemma_bytes_order_equal(x, y),
        (Tree::BulkError(x), Tree::BulkError(y)) => lemma_bytes_order_equal(x, y),
        (Tree::VerbatimString(e, x), Tree::VerbatimString(f, y)) => {
            lemma_bytes_order_equal(e, f);
            lemma_bytes_order_equal(x, y);
        },
        (Tree::Array(x), Tree::Array(y)) => lemma_seq_order_equal(x, y),
        (Tree::MapOf(k, x), Tree::MapOf(l, y)) => {
            lemma_seq_order_equal(k, l);
            lemma_seq_order_equal(x, y);
        },
        (Tree::SetOf(x), Tree::SetOf(y)) => lemma_seq_order_equal(x, y),
        (Tree::Pushes(x), Tree::Pushes(y)) => lemma_seq_order_equal(x, y),
        _ => {},
    }
}

/// Only equal sequences of values stand equal.
pub proof fn lemma_seq_order_equal(a: Seq<Tree>, b: Seq<Tree>)
    requires
        seq_order(a, b) is Equal,
    ensures
        a == b,
    decreases a, 1nat,
{
    if a.len() == 0 || b.len() == 0 {
        assert(a =~= b);
    } else {
        lemma_order_equal(a[0], b[0]);
        lemma_seq_order_equal(a.drop_first(), b.drop_first());
        assert(a =~= seq![a[0]] + a.drop_first());
        assert(b =~= seq![b[0]] + b.drop_first());
    }
}

/// Swapping the two sides swaps `Less` and `Greater`.
pub proof fn lemma_order_flip(a: Tree, b: Tree)
    ensures
        tree_order(a, b) is Less <==> tree_order(b, a) is Greater,
        tree_order(a, b) is Equal <==> tree_order(b, a) is Equal,
    decreases a, 0nat,
{
    match (a, b) {
        (Tree::SimpleString(x), Tree::SimpleString(y)) => lemma_bytes_order_flip(x, y),
        (Tree::SimpleError(x), Tree::SimpleError(y)) => lemma_bytes_order_flip(x, y),
        (Tree::BulkString(x), Tree::BulkString(y)) => lemma_bytes_order_flip(x, y),
        (Tree::Double(x), Tree::Double(y)) => lemma_bytes_order_flip(x, y),
        (Tree::BigNumber(x), Tree::BigNumber(y)) => lemma_bytes_order_flip(x, y),
        (Tree::BulkError(x), Tree::BulkError(y)) => lemma_bytes_order_flip(x, y),
        (Tree::VerbatimString(e, x), Tree::VerbatimString(f, y)) => {
            lemma_bytes_order_flip(e, f);
            lemma_bytes_order_flip(x, y);
        },
        (Tree::Array(x), Tree::Array(y)) => lemma_seq_order_flip(x, y),
        (Tree::MapOf(k, x), Tree::MapOf(l, y)) => {
            lemma_seq_order_flip(k, l);
            lemma_seq_order_flip(x, y);
        },
        (Tree::SetOf(x), Tree::SetOf(y)) => lemma_seq_order_flip(x, y),
        (Tree::Pushes(x), Tree::Pushes(y)) => lemma_seq_order_flip(x, y),
        _ => {},
    }
}

/// Swapping the two sides swaps `Less` and `Greater` on sequences.
pub proof fn lemma_seq_order_flip(a: Seq<Tree>, b: Seq<Tree>)
    ensures
        seq_order(a, b) is Less <==> seq_order(b, a) is Greater,
        seq_order(a, b) is Equal <==> seq_order(b, a) is Equal,
    decreases a, 1nat,
{
    if a.len() > 0 && b.len() > 0 {
        lemma_order_flip(a[0], b[0]);
        lemma_seq_order_flip(a.drop_first(), b.drop_first());
    }
}

/// `Less` is transitive.
pub proof fn lemma_order_transitive(a: Tree, b: Tree, c: Tree)
    requires
        tree_order(a, b) is Less,
        tree_order(b, c) is Less,
    ensures
        tree_order(a, c) is Less,
    decreases a, 0nat,
{
    if rank(a) == rank(b) && rank(b) == rank(c) {
        match (a, b, c) {
            (Tree::SimpleString(x), Tree::SimpleString(y), Tree::SimpleString(z)) => {
                lemma_bytes_order_transitive(x, y, z)
            },
            (Tree::SimpleError(x), Tree::SimpleError(y), Tree::SimpleError(z)) => {
                lemma_bytes_order_transitive(x, y, z)
            },
            (Tree::BulkString(x), Tree::BulkString(y), Tree::BulkString(z)) => {
                lemma_bytes_order_transitive(x, y, z)
            },
            (Tree::Double(x), Tree::Double(y), Tree::Double(z)) => {
                lemma_bytes_order_transitive(x, y, z)
            },
            (Tree::BigNumber(x), Tree::BigNumber(y), Tree::BigNumber(z)) => {
                lemma_bytes_order_transitive(x, y, z)
            },
            (Tree::BulkError(x), Tree::BulkError(y), Tree::BulkError(z)) => {
                lemma_bytes_order_transitive(x, y, z)
            },
            (
                Tree::VerbatimString(e, x),
                Tree::VerbatimString(f, y),
                Tree::VerbatimString(g, z),
            ) => {
                if bytes_order(e, f) is Equal {
                    lemma_bytes_order_equal(e, f);
                }
                if bytes_order(f, g) is Equal {
                    lemma_bytes_order_equal(f, g);
                }
                if bytes_order(e, f) is Less && bytes_order(f, g) is Less {
                    lemma_bytes_order_transitive(e, f, g);
                }
                if bytes_order(x, y) is Less && bytes_order(y, z) is Less {
                    lemma_bytes_order_transitive(x, y, z);
                }
            },
            (Tree::Array(x), Tree::Array(y), Tree::Array(z)) => {
                lemma_seq_order_transitive(x, y, z)
            },
            (Tree::MapOf(k, x), Tree::MapOf(l, y), Tree::MapOf(m, z)) => {
                if seq_order(k, l) is Equal {
                    lemma_seq_order_equal(k, l);
                }
                if seq_order(l, m) is Equal {
                    lemma_seq_order_equal(l, m);
                }
                if seq_order(k, l) is Less && seq_order(l, m) is Less {
                    lemma_seq_order_transitive(k, l, m);
                }
                if seq_order(x, y) is Less && seq_order(y, z) is Less {
                    lemma_seq_order_transitive(x, y, z);
                }
            },
            (Tree::SetOf(x), Tree::SetOf(y), Tree::SetOf(z)) => {
                lemma_seq_order_transitive(x, y, z)
            },
            (Tree::Pushes(x), Tree::Pushes(y), Tree::Pushes(z)) => {
                lemma_seq_order_transitive(x, y, z)
            },
            _ => {},
        }
    }
}

/// `Less` is transitive on sequences of values.
pub proof fn lemma_seq_order_transitive(a: Seq<Tree>, b: Seq<Tree>, c: Seq<Tree>)
    requires
        seq_order(a, b) is Less,
        seq_order(b, c) is Less,
    ensures
        seq_order(a, c) is Less,
    decreases a, 1nat,
{
    if a.len() > 0 && b.len() > 0 && c.len() > 0 {
        let first = tree_order(a[0], b[0]);
        let second = tree_order(b[0], c[0]);
        if first is Equal {
            lemma_order_equal(a[0], b[0]);
        }
        if second is Equal {
            lemma_order_equal(b[0], c[0]);
        }
        if first is Less && second is Less {
            lemma_order_transitive(a[0], b[0], c[0]);
        }
        if first is Equal && second is Equal {
            lemma_seq_order_transitive(a.drop_first(), b.drop_first(), c.drop_first());
        }
    }
}

/// The slot of `x` is within the sequence, everything before it stands
/// before `x`, and the element at it does not.
pub proof fn lemma_slot(items: Seq<Tree>, x: Tree)
    ensures
        0 <= slot(items, x) <= items.len(),
        forall|j: int| 0 <= j < slot(items, x) ==> tree_order(#[trigger] items[j], x) is Less,
        slot(items, x) < items.len() ==> !(tree_order(items[slot(items, x)], x) is Less),
    decreases items.len(),
{
    if items.len() > 0 && tree_order(items[0], x) is Less {
        let tail = items.drop_first();
        lemma_slot(tail, x);
        assert forall|j: int| 0 <= j < slot(items, x) implies tree_order(
            #[trigger] items[j],
            x,
        ) is Less by {
            if j > 0 {
                assert(items[j] == tail[j - 1]);
            }
        }
    }
}

/// A count of leading elements is the slot of `x` if all of them stand
/// before `x` and the next element, if there is one, does not.
pub proof fn lemma_slot_found(items: Seq<Tree>, x: Tree, n: int)
    requires
        0 <= n <= items.len(),
        forall|j: int| 0 <= j < n ==> tree_order(#[trigger] items[j], x) is Less,
        n == items.len() || !(tree_order(items[n], x) is Less),
    ensures
        slot(items, x) == n,
    decreases n,
{
    if n > 0 {
        let tail = items.drop_first();
        assert forall|j: int| 0 <= j < n - 1 implies tree_order(#[trigger] tail[j], x) is Less by {
            assert(tail[j] == items[j + 1]);
        }
        lemma_slot_found(tail, x, n - 1);
    }
}

/// Putting an element into an increasing sequence leaves it increasing.
pub proof fn lemma_with_element_increasing(items: Seq<Tree>, x: Tree)
    requires
        strictly_increasing(items),
    ensures
        strictly_increasing(with_element(items, x)),
{
    let at = slot(items, x);
    let after = with_element(items, x);
    lemma_slot(items, x);
    if !(at < items.len() && tree_order(items[at], x) is Equal) {
        assert forall|i: int, j: int| 0 <= i < j < after.len() implies tree_order(
            after[i],
            after[j],
        ) is Less by {
            if j == at {
                assert(after[i] == items[i]);
            } else if i == at {
                assert(after[j] == items[j - 1]);
                lemma_order_flip(items[at], x);
                if j - 1 > at {
                    lemma_order_transitive(x, items[at], items[j - 1]);
                }
            } else {
                let before_i = if i < at { i } else { i - 1 };
                let before_j = if j < at { j } else { j - 1 };
                assert(after[i] == items[before_i]);
                assert(after[j] == items[before_j]);
            }
        }
    }
}

/// Putting an element into a sequence adds it to the set of its elements,
/// and nothing else.
pub proof fn lemma_with_element_contents(items: Seq<Tree>, x: Tree)
    ensures
        with_element(items, x).to_set() == items.to_set().insert(x),
{
    let at = slot(items, x);
    let after = with_element(items, x);
    lemma_slot(items, x);
    if at < items.len() && tree_order(items[at], x) is Equal {
        lemma_order_equal(items[at], x);
        assert(items.contains(x));
        assert(after.to_set() =~= items.to_set().insert(x));
    } else {
        assert forall|t: Tree| after.to_set().contains(t) <==> items.to_set().insert(x).contains(
            t,
        ) by {
            if after.contains(t) {
                let i = choose|i: int| 0 <= i < after.len() && after[i] == t;
                if i < at {
                    assert(items[i] == t);
                } else if i > at {
                    assert(items[i - 1] == t);
                }
            }
            if items.contains(t) {
                let i = choose|i: int| 0 <= i < items.len() && items[i] == t;
                if i < at {
                    assert(after[i] == t);
                } else {
                    assert(after[i + 1] == t);
                }
            }
            if t == x {
                assert(after[at] == x);
            }
        }
        assert(after.to_set() =~= items.to_set().insert(x));
    }
}

/// The canonical sequence is increasing and holds exactly the elements of
/// the sequence it was made from.
pub proof fn lemma_canonical(items: Seq<Tree>)
    ensures
        strictly_increasing(canonical(items)),
        canonical(items).to_set() == items.to_set(),
    decreases items.len(),
{
    if items.len() == 0 {
        assert(canonical(items).to_set() =~= items.to_set());
    } else {
        let front = items.drop_last();
        lemma_canonical(front);
        lemma_with_element_increasing(canonical(front), items.last());
        lemma_with_element_contents(canonical(front), items.last());
        assert(front.to_set().insert(items.last()) =~= items.to_set()) by {
            assert forall|t: Tree| front.to_set().insert(items.last()).contains(t)
                <==> items.to_set().contains(t) by {
                if front.contains(t) {
                    let i = choose|i: int| 0 <= i < front.len() && front[i] == t;
                    assert(items[i] == t);
                }
                if items.contains(t) {
                    let i = choose|i: int| 0 <= i < items.len() && items[i] == t;
                    if i < front.len() {
                        assert(front[i] == t);
                    }
                }
                if t == items.last() {
                    assert(items[items.len() - 1] == t);
                }
            }
        }
    }
}

/// In an increasing sequence nothing occurs twice.
pub proof fn lemma_increasing_distinct(items: Seq<Tree>)
    requires
        strictly_increasing(items),
    ensures
        items.no_duplicates(),
{
    assert forall|i: int, j: int|
        0 <= i < items.len() && 0 <= j < items.len() && i != j implies items[i] != items[j] by {
        lemma_order_reflexive(items[i]);
    }
}

/// In an increasing sequence a value occurs exactly if its equal stands at
/// its slot.
pub proof fn lemma_slot_decides(items: Seq<Tree>, x: Tree)
    requires
        strictly_increasing(items),
    ensures
        items.contains(x) <==> (slot(items, x) < items.len() && tree_order(
            items[slot(items, x)],
            x,
        ) is Equal),
{
    let at = slot(items, x);
    lemma_slot(items, x);
    if at < items.len() && tree_order(items[at], x) is Equal {
        lemma_order_equal(items[at], x);
    }
    if items.contains(x) {
        let i = choose|i: int| 0 <= i < items.len() && items[i] == x;
        lemma_order_reflexive(x);
        if i > at {
            lemma_order_flip(items[at], x);
            lemma_order_flip(items[i], items[at]);
        }
    }
}

/// There is one increasing sequence for each set of elements: two
/// increasing sequences with the same elements are the same sequence.
pub proof fn lemma_increasing_unique(a: Seq<Tree>, b: Seq<Tree>)
    requires
        strictly_increasing(a),
        strictly_increasing(b),
        a.to_set() == b.to_set(),
    ensures
        a == b,
    decreases a.len(),
{
    if a.len() == 0 {
        if b.len() > 0 {
            assert(b.contains(b[0]));
            assert(a.to_set().contains(b[0]));
        }
        assert(a =~= b);
    } else {
        assert(a.contains(a[0]));
        assert(b.to_set().contains(a[0]));
        let k = choose|k: int| 0 <= k < b.len() && b[k] == a[0];
        assert(b.contains(b[0]));
        assert(a.to_set().contains(b[0]));
        let m = choose|m: int| 0 <= m < a.len() && a[m] == b[0];
        if k > 0 && m > 0 {
            lemma_order_flip(b[0], a[0]);
        }
        assert(a[0] == b[0]);
        let x = a.drop_first();
        let y = b.drop_first();
        lemma_increasing_distinct(a);
        lemma_increasing_distinct(b);
        assert forall|t: Tree| x.to_set().contains(t) <==> y.to_set().contains(t) by {
            if x.contains(t) {
                let i = choose|i: int| 0 <= i < x.len() && x[i] == t;
                assert(a[i + 1] == t);
                assert(a.contains(t));
                assert(b.to_set().contains(t));
                let j = choose|j: int| 0 <= j < b.len() && b[j] == t;
                assert(y[j - 1] == t);
            }
            if y.contains(t) {
                let i = choose|i: int| 0 <= i < y.len() && y[i] == t;
                assert(b[i + 1] == t);
                assert(b.contains(t));
                assert(a.to_set().contains(t));
                let j = choose|j: int| 0 <= j < a.len() && a[j] == t;
                assert(x[j - 1] == t);
            }
        }
        assert(x.to_set() =~= y.to_set());
        assert forall|i: int, j: int| 0 <= i < j < x.len() implies tree_order(
            x[i],
            x[j],
        ) is Less by {
            assert(x[i] == a[i + 1] && x[j] == a[j + 1]);
        }
        assert forall|i: int, j: int| 0 <= i < j < y.len() implies tree_order(
            y[i],
            y[j],
        ) is Less by {
            assert(y[i] == b[i + 1] && y[j] == b[j + 1]);
        }
        lemma_increasing_unique(x, y);
        assert(a =~= seq![a[0]] + x);
        assert(b =~= seq![b[0]] + y);
    }
}

} // verus!
