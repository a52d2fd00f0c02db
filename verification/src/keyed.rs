//! Looking up the values of a map by the text of their keys.

use vstd::prelude::*;
use vstd::string::StringSliceAdditionalSpecFns;
use crate::order::{bytes_order, compare_texts, Sign};
use crate::order_laws::{lemma_bytes_order_equal, lemma_bytes_order_reflexive};
use crate::value::{trees, Tree, Value};

verus! {

/// Why a value cannot be looked up by key.
#[derive(Debug)]
pub enum ToHashMapError<'a> {
    /// The value is not a map.
    NotAMap,
    /// A key does not carry a text; the key is handed back.
    KeyNotString(&'a Value<'a>),
}

/// Whether two texts are the same bytes.
pub fn same_text(a: &str, b: &str) -> (r: bool)
    ensures
        r == (a.spec_bytes() == b.spec_bytes()),
{
    proof {
        lemma_bytes_order_reflexive(a.spec_bytes());
        if bytes_order(a.spec_bytes(), b.spec_bytes()) is Equal {
            lemma_bytes_order_equal(a.spec_bytes(), b.spec_bytes());
        }
    }
    match compare_texts(a, b) {
        Sign::Equal => true,
        _ => false,
    }
}

/// The association that the first `pairs` keys and values make: each key's
/// text leads to the value at the same index, a later pair replacing an
/// earlier one with the same text.
pub open spec fn association(keys: Seq<Tree>, values: Seq<Tree>, pairs: nat) -> Map<Seq<u8>, Tree>
    decreases pairs,
{
    if pairs == 0 {
        Map::empty()
    } else {
        association(keys, values, (pairs - 1) as nat).insert(
            keys[pairs - 1].text().unwrap(),
            values[pairs - 1],
        )
    }
}

/// The number of keys at the start of `keys` that carry a text.
pub open spec fn text_keys(keys: Seq<Tree>) -> nat
    decreases keys.len(),
{
    if keys.len() > 0 && keys[0].string_like() {
        1 + text_keys(keys.drop_first())
    } else {
        0
    }
}

/// What reading a value as an association gives.
pub enum Lookup {
    /// Every key taken carries a text: the association.
    Found(Map<Seq<u8>, Tree>),
    /// The value is not a map.
    NotAMap,
    /// The first key that carries no text.
    KeyNotString(Tree),
}

/// Reading a value as an association.  The keys and values of a map are
/// taken pair by pair, as far as both reach.
pub open spec fn lookup(tree: Tree) -> Lookup {
    match tree {
        Tree::MapOf(keys, values) => {
            let pairs = if keys.len() <= values.len() {
                keys.len()
            } else {
                values.len()
            };
            let texts = text_keys(keys.subrange(0, pairs as int));
            if texts == pairs {
                Lookup::Found(association(keys, values, pairs))
            } else {
                Lookup::KeyNotString(keys[texts as int])
            }
        },
        _ => Lookup::NotAMap,
    }
}

/// A count of leading keys is the number of text keys if all of them carry a
/// text and the next key, if there is one, does not.
pub proof fn lemma_text_keys(keys: Seq<Tree>, n: nat)
    requires
        n <= keys.len(),
        forall|j: int| 0 <= j < n ==> (#[trigger] keys[j]).string_like(),
        n == keys.len() || !keys[n as int].string_like(),
    ensures
        text_keys(keys) == n,
    decreases n,
{
    if n > 0 {
        let tail = keys.drop_first();
        assert forall|j: int| 0 <= j < n - 1 implies (#[trigger] tail[j]).string_like() by {
            assert(tail[j] == keys[j + 1]);
        }
        lemma_text_keys(tail, (n - 1) as nat);
    }
}

/// A key-unique association from texts to the values of a map.
pub struct StringMap<'a> {
    keys: Vec<&'a str>,
    values: Vec<&'a Value<'a>>,
    model: Ghost<Map<Seq<u8>, Tree>>,
}

impl<'a> View for StringMap<'a> {
    type V = Map<Seq<u8>, Tree>;

    closed spec fn view(&self) -> Map<Seq<u8>, Tree> {
        self.model@
    }
}

impl<'a> StringMap<'a> {
    #[verifier::type_invariant]
    spec fn coherent(self) -> bool {
        &&& self.keys@.len() == self.values@.len()
        &&& self.model@.dom().finite()
        &&& self.model@.dom().len() == self.keys@.len()
        &&& forall|i: int|
            0 <= i < self.keys@.len() ==> self.model@.dom().contains(
                (#[trigger] self.keys@[i]).spec_bytes(),
            ) && self.model@[self.keys@[i].spec_bytes()] == self.values@[i]@
        &&& forall|k: Seq<u8>|
            self.model@.dom().contains(k) ==> exists|i: int|
                0 <= i < self.keys@.len() && (#[trigger] self.keys@[i]).spec_bytes() == k
        &&& forall|i: int, j: int|
            0 <= i < j < self.keys@.len() ==> (#[trigger] self.keys@[i]).spec_bytes() != (
            #[trigger] self.keys@[j]).spec_bytes()
    }

    /// The association without any key.
    pub fn new() -> (r: Self)
        ensures
            r@ == Map::<Seq<u8>, Tree>::empty(),
    {
        StringMap { keys: Vec::new(), values: Vec::new(), model: Ghost(Map::empty()) }
    }

    /// The index of `key`, if it is there.
    fn position(&self, key: &str) -> (r: Option<usize>)
        ensures
            match r {
                Some(i) => i < self.keys@.len() && self.keys@[i as int].spec_bytes()
                    == key.spec_bytes(),
                None => forall|i: int|
                    0 <= i < self.keys@.len() ==> (#[trigger] self.keys@[i]).spec_bytes()
                        != key.spec_bytes(),
            },
    {
        let mut at: usize = 0;
        while at < self.keys.len()
            invariant
                at <= self.keys@.len(),
                forall|i: int|
                    0 <= i < at ==> (#[trigger] self.keys@[i]).spec_bytes() != key.spec_bytes(),
            decreases self.keys@.len() - at,
        {
            if same_text(self.keys[at], key) {
                return Some(at);
            }
            at += 1;
        }
        None
    }

    /// The number of keys.
    pub fn len(&self) -> (r: usize)
        ensures
            self@.dom().finite(),
            r == self@.dom().len(),
    {
        proof {
            use_type_invariant(self);
        }
        self.keys.len()
    }

    /// Whether there is no key.
    pub fn is_empty(&self) -> (r: bool)
        ensures
            self@.dom().finite(),
            r == (self@.dom().len() == 0),
    {
        self.len() == 0
    }

    /// Whether `key` leads to a value.
    pub fn contains_key(&self, key: &str) -> (r: bool)
        ensures
            r == self@.dom().contains(key.spec_bytes()),
    {
        proof {
            use_type_invariant(self);
        }
        self.position(key).is_some()
    }

    /// The value that `key` leads to.
    pub fn get(&self, key: &str) -> (r: Option<&'a Value<'a>>)
        ensures
            match r {
                Some(found) => self@.dom().contains(key.spec_bytes()) && found@
                    == self@[key.spec_bytes()],
                None => !self@.dom().contains(key.spec_bytes()),
            },
    {
        proof {
            use_type_invariant(self);
        }
        match self.position(key) {
            Some(i) => Some(self.values[i]),
            None => None,
        }
    }

    /// Every key with the value that it leads to, each key once.
    pub fn pairs(&self) -> (r: Vec<(&'a str, &'a Value<'a>)>)
        ensures
            r@.len() == self@.dom().len(),
            forall|i: int|
                0 <= i < r@.len() ==> self@.dom().contains((#[trigger] r@[i]).0.spec_bytes())
                    && self@[r@[i].0.spec_bytes()] == r@[i].1@,
            forall|i: int, j: int|
                0 <= i < j < r@.len() ==> (#[trigger] r@[i]).0.spec_bytes() != (
                #[trigger] r@[j]).0.spec_bytes(),
    {
        proof {
            use_type_invariant(self);
        }
        let mut pairs: Vec<(&'a str, &'a Value<'a>)> = Vec::new();
        let mut at: usize = 0;
        while at < self.keys.len()
            invariant
                at <= self.keys@.len(),
                self.keys@.len() == self.values@.len(),
                pairs@.len() == at,
                forall|i: int|
                    0 <= i < at ==> (#[trigger] pairs@[i]).0 == self.keys@[i] && pairs@[i].1
                        == self.values@[i],
            decreases self.keys@.len() - at,
        {
            pairs.push((self.keys[at], self.values[at]));
            at += 1;
        }
        pairs
    }

    /// The association in which `key` leads to `value` and every other key
    /// to what it led to.
    pub fn with(self, key: &'a str, value: &'a Value<'a>) -> (r: Self)
        ensures
            r@ == self@.insert(key.spec_bytes(), value@),
    {
        proof {
            use_type_invariant(&self);
        }
        let found = self.position(key);
        let ghost before = self.model@;
        let ghost model = before.insert(key.spec_bytes(), value@);
        let StringMap { mut keys, mut values, model: _ } = self;
        let ghost old_keys = keys@;
        match found {
            Some(i) => {
                let ghost old_values = values@;
                values.set(i, value);
                proof {
                    assert(model.dom() =~= before.dom());
                    assert forall|j: int| 0 <= j < keys@.len() implies model.dom().contains(
                        (#[trigger] keys@[j]).spec_bytes(),
                    ) && model[keys@[j].spec_bytes()] == values@[j]@ by {
                        if j != i {
                            assert(values@[j] == old_values[j]);
                            assert(keys@[j].spec_bytes() != keys@[i as int].spec_bytes());
                        }
                    }
                }
            },
            None => {
                keys.push(key);
                values.push(value);
                proof {
                    assert(!before.dom().contains(key.spec_bytes()));
                    assert(keys@[old_keys.len() as int] == key);
                    assert forall|i: int| 0 <= i < keys@.len() implies model.dom().contains(
                        (#[trigger] keys@[i]).spec_bytes(),
                    ) && model[keys@[i].spec_bytes()] == values@[i]@ by {
                        if i < old_keys.len() {
                            assert(keys@[i] == old_keys[i]);
                        }
                    }
                    assert forall|k: Seq<u8>| model.dom().contains(k) implies exists|i: int|
                        0 <= i < keys@.len() && (#[trigger] keys@[i]).spec_bytes() == k by {
                        if k == key.spec_bytes() {
                            assert(keys@[old_keys.len() as int].spec_bytes() == k);
                        } else {
                            let i = choose|i: int|
                                0 <= i < old_keys.len() && (#[trigger] old_keys[i]).spec_bytes()
                                    == k;
                            assert(keys@[i].spec_bytes() == k);
                        }
                    }
                    assert forall|i: int, j: int| 0 <= i < j < keys@.len() implies (
                    #[trigger] keys@[i]).spec_bytes() != (#[trigger] keys@[j]).spec_bytes() by {
                        assert(keys@[i] == old_keys[i]);
                        if j < old_keys.len() {
                            assert(keys@[j] == old_keys[j]);
                        }
                    }
                }
            },
        }
        StringMap { keys, values, model: Ghost(model) }
    }
}

impl<'a> Value<'a> {
    /// Reads a map as an association from the texts of its keys to its
    /// values.
    ///
    /// Keys and values are taken pair by pair, as far as both reach.  A
    /// value that is no map gives `NotAMap`; the first key that carries no
    /// text gives `KeyNotString` with that key.
    pub fn try_to_hashmap(&self) -> (r: Result<StringMap<'_>, ToHashMapError<'_>>)
        ensures
            match lookup(self@) {
                Lookup::Found(association) => r matches Ok(map) && map@ == association,
                Lookup::NotAMap => r matches Err(ToHashMapError::NotAMap),
                Lookup::KeyNotString(first) => r matches Err(ToHashMapError::KeyNotString(key))
                    && key@ == first,
            },
    {
        match self {
            Value::MapOf(keys, values) => {
                let pairs = if keys.len() <= values.len() {
                    keys.len()
                } else {
                    values.len()
                };
                let ghost paired = trees(keys@).subrange(0, pairs as int);
                let mut map = StringMap::new();
                let mut at: usize = 0;
                while at < pairs
                    invariant
                        at <= pairs,
                        self@ == Tree::MapOf(trees(keys@), trees(values@)),
                        pairs == keys@.len() || pairs == values@.len(),
                        pairs <= keys@.len(),
                        pairs <= values@.len(),
                        paired == trees(keys@).subrange(0, pairs as int),
                        forall|j: int| 0 <= j < at ==> (#[trigger] paired[j]).string_like(),
                        map@ == association(trees(keys@), trees(values@), at as nat),
                    decreases pairs - at,
                {
                    let key = &keys[at];
                    match key.as_str() {
                        Some(text) => {
                            proof {
                                assert(paired[at as int] == key@);
                            }
                            map = map.with(text, &values[at]);
                        },
                        None => {
                            proof {
                                assert(paired[at as int] == key@);
                                lemma_text_keys(paired, at as nat);
                            }
                            return Err(ToHashMapError::KeyNotString(key));
                        },
                    }
                    at += 1;
                }
                proof {
                    lemma_text_keys(paired, at as nat);
                }
                Ok(map)
            },
            _ => Err(ToHashMapError::NotAMap),
        }
    }
}

} // verus!
