//! The value model: every shape that a message can decode to, and the
//! operations that inspect it.

use vstd::prelude::*;
use vstd::string::StringSliceAdditionalSpecFns;
use vstd::utf8::encode_utf8;
use crate::order::strictly_increasing;
use crate::set::ValueSet;

verus! {

/// The mathematical content of a value.  Texts are the sequences of their
/// bytes, aggregates are sequences of contents, and a set is the sequence
/// of its distinct elements in the canonical order.
pub enum Tree {
    SimpleString(Seq<u8>),
    SimpleError(Seq<u8>),
    Integer(i64),
    BulkString(Seq<u8>),
    Array(Seq<Tree>),
    Null,
    Boolean(bool),
    Double(Seq<u8>),
    BigNumber(Seq<u8>),
    BulkError(Seq<u8>),
    VerbatimString(Seq<u8>, Seq<u8>),
    MapOf(Seq<Tree>, Seq<Tree>),
    SetOf(Seq<Tree>),
    Pushes(Seq<Tree>),
}

/// A decoded value.  Texts other than that of a `Double` are slices of the
/// buffer that the value was decoded from.
#[derive(Debug, Ord)]
pub enum Value<'a> {
    SimpleString(&'a str),
    SimpleError(&'a str),
    Integer(i64),
    BulkString(&'a str),
    Array(Vec<Value<'a>>),
    Null,
    Boolean(bool),
    /// A number, stored as the text that it is rendered to.
    Double(String),
    /// A sign and digits, never read as a number.
    BigNumber(&'a str),
    BulkError(&'a str),
    /// The encoding tag and the text.
    VerbatimString(&'a str, &'a str),
    /// The keys and the values, in wire order: the key at an index belongs
    /// to the value at the same index.
    MapOf(Vec<Value<'a>>, Vec<Value<'a>>),
    SetOf(ValueSet<'a>),
    Pushes(Vec<Value<'a>>),
}

/// The contents of a sequence of values.
pub open spec fn trees<'a>(values: Seq<Value<'a>>) -> Seq<Tree>
    decreases values,
{
    Seq::new(
        values.len(),
        |i: int|
            if 0 <= i < values.len() {
                values[i].view()
            } else {
                Tree::Null
            },
    )
}

impl<'a> View for Value<'a> {
    type V = Tree;

    open spec fn view(&self) -> Tree
        decreases self,
    {
        match self {
            Value::SimpleString(s) => Tree::SimpleString(s.spec_bytes()),
            Value::SimpleError(s) => Tree::SimpleError(s.spec_bytes()),
            Value::Integer(i) => Tree::Integer(*i),
            Value::BulkString(s) => Tree::BulkString(s.spec_bytes()),
            Value::Array(v) => Tree::Array(trees(v@)),
            Value::Null => Tree::Null,
            Value::Boolean(b) => Tree::Boolean(*b),
            Value::Double(s) => Tree::Double(encode_utf8(s@)),
            Value::BigNumber(s) => Tree::BigNumber(s.spec_bytes()),
            Value::BulkError(s) => Tree::BulkError(s.spec_bytes()),
            Value::VerbatimString(e, s) => Tree::VerbatimString(e.spec_bytes(), s.spec_bytes()),
            Value::MapOf(k, v) => Tree::MapOf(trees(k@), trees(v@)),
            Value::SetOf(s) => {
                proof {
                    s.lemma_items_smaller();
                }
                Tree::SetOf(trees(s.items()))
            },
            Value::Pushes(v) => Tree::Pushes(trees(v@)),
        }
    }
}

/// Every content in a sequence is well formed.
pub open spec fn all_well_formed(items: Seq<Tree>) -> bool
    decreases items,
{
    forall|i: int| 0 <= i < items.len() ==> (#[trigger] items[i]).well_formed()
}

impl Tree {
    /// What holds of every decoded value, at every depth: a map has as many
    /// keys as values, and the elements of a set are distinct and stand in
    /// the canonical order.
    pub open spec fn well_formed(self) -> bool
        decreases self,
    {
        match self {
            Tree::Array(items) => all_well_formed(items),
            Tree::Pushes(items) => all_well_formed(items),
            Tree::MapOf(keys, values) => keys.len() == values.len() && all_well_formed(keys)
                && all_well_formed(values),
            Tree::SetOf(items) => strictly_increasing(items) && all_well_formed(items),
            _ => true,
        }
    }

    /// The text of a string-like value: for a `VerbatimString` the text
    /// without the encoding tag.  `None` for every other variant.
    pub open spec fn text(self) -> Option<Seq<u8>> {
        match self {
            Tree::SimpleString(s) => Some(s),
            Tree::SimpleError(s) => Some(s),
            Tree::BulkString(s) => Some(s),
            Tree::Double(s) => Some(s),
            Tree::BigNumber(s) => Some(s),
            Tree::BulkError(s) => Some(s),
            Tree::VerbatimString(_, s) => Some(s),
            _ => None,
        }
    }

    /// One of the seven variants that carry a text.
    pub open spec fn string_like(self) -> bool {
        self is SimpleString || self is SimpleError || self is BulkString || self is BulkError
            || self is Double || self is BigNumber || self is VerbatimString
    }

    /// The elements of an `Array` or of `Pushes`.  `None` for every other
    /// variant.
    pub open spec fn sequence(self) -> Option<Seq<Tree>> {
        match self {
            Tree::Array(items) => Some(items),
            Tree::Pushes(items) => Some(items),
            _ => None,
        }
    }

    /// `Array` or `Pushes`.
    pub open spec fn array_like(self) -> bool {
        self is Array || self is Pushes
    }
}

impl<'a> Value<'a> {
    /// Whether the value is a `SimpleString`.
    pub fn is_simple_string(&self) -> (r: bool)
        ensures
            r == (self@ is SimpleString),
    {
        matches!(self, Value::SimpleString(_))
    }

    /// Whether the value is a `SimpleError`.
    pub fn is_simple_error(&self) -> (r: bool)
        ensures
            r == (self@ is SimpleError),
    {
        matches!(self, Value::SimpleError(_))
    }

    /// Whether the value is an `Integer`.
    pub fn is_integer(&self) -> (r: bool)
        ensures
            r == (self@ is Integer),
    {
        matches!(self, Value::Integer(_))
    }

    /// Whether the value is a `BulkString`.
    pub fn is_bulk_string(&self) -> (r: bool)
        ensures
            r == (self@ is BulkString),
    {
        matches!(self, Value::BulkString(_))
    }

    /// Whether the value is an `Array`.
    pub fn is_array(&self) -> (r: bool)
        ensures
            r == (self@ is Array),
    {
        matches!(self, Value::Array(_))
    }

    /// Whether the value is `Null`.
    pub fn is_null(&self) -> (r: bool)
        ensures
            r == (self@ is Null),
    {
        matches!(self, Value::Null)
    }

    /// Whether the value is a `Boolean`.
    pub fn is_bool(&self) -> (r: bool)
        ensures
            r == (self@ is Boolean),
    {
        matches!(self, Value::Boolean(_))
    }

    /// Whether the value is a `Double`.
    pub fn is_double(&self) -> (r: bool)
        ensures
            r == (self@ is Double),
    {
        matches!(self, Value::Double(_))
    }

    /// Whether the value is a `BigNumber`.
    pub fn is_bignumber(&self) -> (r: bool)
        ensures
            r == (self@ is BigNumber),
    {
        matches!(self, Value::BigNumber(_))
    }

    /// Whether the value is a `BulkError`.
    pub fn is_bulk_error(&self) -> (r: bool)
        ensures
            r == (self@ is BulkError),
    {
        matches!(self, Value::BulkError(_))
    }

    /// Whether the value is a `VerbatimString`.
    pub fn is_verbatim_string(&self) -> (r: bool)
        ensures
            r == (self@ is VerbatimString),
    {
        matches!(self, Value::VerbatimString(_, _))
    }

    /// Whether the value is a map.
    pub fn is_map(&self) -> (r: bool)
        ensures
            r == (self@ is MapOf),
    {
        matches!(self, Value::MapOf(_, _))
    }

    /// Whether the value is a set.
    pub fn is_set(&self) -> (r: bool)
        ensures
            r == (self@ is SetOf),
    {
        matches!(self, Value::SetOf(_))
    }

    /// Whether the value is `Pushes`.
    pub fn is_pushes(&self) -> (r: bool)
        ensures
            r == (self@ is Pushes),
    {
        matches!(self, Value::Pushes(_))
    }

    /// Whether the value carries a text.
    pub fn is_string_like(&self) -> (r: bool)
        ensures
            r == self@.string_like(),
            r == (self@.text() is Some),
    {
        self.is_simple_string() || self.is_simple_error() || self.is_bulk_string()
            || self.is_bulk_error() || self.is_double() || self.is_bignumber()
            || self.is_verbatim_string()
    }

    /// Whether the value is a plain sequence of values.
    pub fn is_array_like(&self) -> (r: bool)
        ensures
            r == self@.array_like(),
            r == (self@.sequence() is Some),
    {
        self.is_array() || self.is_pushes()
    }

    /// The text of a string-like value, nothing for any other.
    pub fn as_str(&self) -> (r: Option<&str>)
        ensures
            match r {
                Some(s) => self@.text() == Some(s.spec_bytes()),
                None => self@.text() is None,
            },
    {
        match self {
            Value::SimpleString(s) => Some(s),
            Value::SimpleError(s) => Some(s),
            Value::BulkString(s) => Some(s),
            Value::Double(s) => Some(s.as_str()),
            Value::BigNumber(s) => Some(s),
            Value::BulkError(s) => Some(s),
            Value::VerbatimString(_, s) => Some(s),
            _ => None,
        }
    }

    /// The number of an `Integer`, nothing for any other variant.
    pub fn as_i64(&self) -> (r: Option<i64>)
        ensures
            match r {
                Some(i) => self@ == Tree::Integer(i),
                None => !(self@ is Integer),
            },
    {
        match self {
            Value::Integer(i) => Some(*i),
            _ => None,
        }
    }

    /// The truth value of a `Boolean`, nothing for any other variant.
    pub fn as_bool(&self) -> (r: Option<bool>)
        ensures
            match r {
                Some(b) => self@ == Tree::Boolean(b),
                None => !(self@ is Boolean),
            },
    {
        match self {
            Value::Boolean(b) => Some(*b),
            _ => None,
        }
    }

    /// The elements of an `Array` or of `Pushes`, nothing for any other
    /// variant.
    pub fn as_array(&self) -> (r: Option<&Vec<Value<'a>>>)
        ensures
            match r {
                Some(items) => self@.sequence() == Some(trees(items@)),
                None => self@.sequence() is None,
            },
    {
        match self {
            Value::Array(a) => Some(a),
            Value::Pushes(p) => Some(p),
            _ => None,
        }
    }

    /// The keys and the values of a map, nothing for any other variant.
    pub fn as_map(&self) -> (r: Option<(&Vec<Value<'a>>, &Vec<Value<'a>>)>)
        ensures
            match r {
                Some((keys, values)) => self@ == Tree::MapOf(trees(keys@), trees(values@)),
                None => !(self@ is MapOf),
            },
    {
        match self {
            Value::MapOf(k, v) => Some((k, v)),
            _ => None,
        }
    }

    /// The set of a `SetOf`, nothing for any other variant.
    pub fn as_set(&self) -> (r: Option<&ValueSet<'a>>)
        ensures
            match r {
                Some(set) => self@ == Tree::SetOf(set.elements()),
                None => !(self@ is SetOf),
            },
    {
        match self {
            Value::SetOf(s) => Some(s),
            _ => None,
        }
    }
}

} // verus!
