//! A table keyed by text, in the order of its keys.

use crate::text::{
    chars_of, lemma_text_order, lemma_text_order_transitive, less, same_chars, text_less,
};
use vstd::prelude::*;

verus! {

/// Rows with distinct keys in ascending order. The model is the sequence of its rows.
pub struct Table<V> {
    keys: Vec<String>,
    values: Vec<V>,
}

/// Where the row of `key` is or would be: the first place whose key is not less.
pub open spec fn place<V>(rows: Seq<(Seq<char>, V)>, key: Seq<char>) -> int
    decreases rows.len(),
{
    if rows.len() == 0 || !text_less(rows[0].0, key) {
        0
    } else {
        1 + place(rows.skip(1), key)
    }
}

/// The value in the row of `key`.
pub open spec fn found<V>(rows: Seq<(Seq<char>, V)>, key: Seq<char>) -> Option<V> {
    let p = place(rows, key);
    if 0 <= p < rows.len() && rows[p].0 == key {
        Some(rows[p].1)
    } else {
        None
    }
}

/// The rows with the row of `key` set to `value`.
pub open spec fn inserted<V>(rows: Seq<(Seq<char>, V)>, key: Seq<char>, value: V) -> Seq<
    (Seq<char>, V),
> {
    let p = place(rows, key);
    if 0 <= p < rows.len() && rows[p].0 == key {
        rows.update(p, (key, value))
    } else {
        rows.insert(p, (key, value))
    }
}

/// The keys strictly ascend.
pub open spec fn ascending<V>(rows: Seq<(Seq<char>, V)>) -> bool {
    forall|i: int, j: int|
        0 <= i < j < rows.len() ==> text_less(#[trigger] rows[i].0, #[trigger] rows[j].0)
}

impl<V> View for Table<V> {
    type V = Seq<(Seq<char>, V)>;

    closed spec fn view(&self) -> Seq<(Seq<char>, V)> {
        Seq::new(self.keys@.len(), |i: int| (self.keys@[i]@, self.values@[i]))
    }
}

pub proof fn lemma_place<V>(rows: Seq<(Seq<char>, V)>, key: Seq<char>)
    ensures
        0 <= place(rows, key) <= rows.len(),
        place(rows, key) < rows.len() ==> !text_less(rows[place(rows, key)].0, key),
        forall|i: int| 0 <= i < place(rows, key) ==> text_less(#[trigger] rows[i].0, key),
    decreases rows.len(),
{
    if rows.len() > 0 && text_less(rows[0].0, key) {
        lemma_place(rows.skip(1), key);
        assert forall|i: int| 0 <= i < place(rows, key) implies text_less(
            #[trigger] rows[i].0,
            key,
        ) by {
            if i > 0 {
                assert(rows.skip(1)[i - 1] == rows[i]);
            }
        }
    }
}

/// Among ascending rows, a row with the key is the one that is found.
pub proof fn lemma_found<V>(rows: Seq<(Seq<char>, V)>, i: int)
    requires
        ascending(rows),
        0 <= i < rows.len(),
    ensures
        place(rows, rows[i].0) == i,
        found(rows, rows[i].0) == Some(rows[i].1),
{
    let key = rows[i].0;
    lemma_place(rows, key);
    let p = place(rows, key);
    lemma_text_order(key, key);
    if p > i {
        assert(text_less(rows[i].0, key));
    }
    if p < i {
        assert(text_less(rows[p].0, rows[i].0));
    }
}

/// Setting a row keeps the order; the row then holds the value, and no other row changes.
pub proof fn lemma_inserted<V>(rows: Seq<(Seq<char>, V)>, key: Seq<char>, value: V)
    requires
        ascending(rows),
    ensures
        ascending(inserted(rows, key, value)),
        found(inserted(rows, key, value), key) == Some(value),
        forall|other: Seq<char>|
            other != key ==> found(inserted(rows, key, value), other) == #[trigger] found(
                rows,
                other,
            ),
{
    lemma_place(rows, key);
    let p = place(rows, key);
    let next = inserted(rows, key, value);
    let here = p < rows.len() && rows[p].0 == key;
    if !here && p < rows.len() {
        lemma_text_order(rows[p].0, key);
    }
    assert forall|i: int, j: int| 0 <= i < j < next.len() implies text_less(
        #[trigger] next[i].0,
        #[trigger] next[j].0,
    ) by {
        if here {
            assert(next[i].0 == rows[i].0 && next[j].0 == rows[j].0);
        } else {
            if j < p {
                assert(next[i] == rows[i] && next[j] == rows[j]);
            } else if j == p {
                assert(next[i] == rows[i]);
            } else if i > p {
                assert(next[i] == rows[i - 1] && next[j] == rows[j - 1]);
            } else if i == p {
                assert(next[j] == rows[j - 1]);
                if j - 1 > p {
                    lemma_text_order_transitive(key, rows[p].0, rows[j - 1].0);
                }
            } else {
                assert(next[i] == rows[i] && next[j] == rows[j - 1]);
            }
        }
    }
    assert(next[p] == (key, value));
    lemma_found(next, p);
    assert forall|other: Seq<char>| other != key implies found(next, other) == #[trigger] found(
        rows,
        other,
    ) by {
        lemma_place(rows, other);
        lemma_place(next, other);
        let q = place(rows, other);
        if q < rows.len() && rows[q].0 == other {
            let k = if here || q < p {
                q
            } else {
                q + 1
            };
            assert(next[k] == rows[q]);
            lemma_found(next, k);
        } else {
            let k = place(next, other);
            if k < next.len() && next[k].0 == other {
                let b = if here || k < p {
                    k
                } else {
                    k - 1
                };
                assert(rows[b] == next[k]);
                lemma_found(rows, b);
            }
        }
    }
}

/// The rows with each value by its view.
pub open spec fn viewed<V: View>(rows: Seq<(Seq<char>, V)>) -> Seq<(Seq<char>, V::V)> {
    rows.map_values(|r: (Seq<char>, V)| (r.0, r.1@))
}

proof fn lemma_viewed_place<V: View>(rows: Seq<(Seq<char>, V)>, key: Seq<char>)
    ensures
        place(viewed(rows), key) == place(rows, key),
    decreases rows.len(),
{
    if rows.len() > 0 && text_less(rows[0].0, key) {
        assert(viewed(rows).skip(1) =~= viewed(rows.skip(1)));
        lemma_viewed_place(rows.skip(1), key);
    }
}

/// Looking a row up and taking the view of its value can be done in either order.
pub proof fn lemma_viewed_found<V: View>(rows: Seq<(Seq<char>, V)>, key: Seq<char>)
    ensures
        found(viewed(rows), key) == match found(rows, key) {
            Some(v) => Some(v@),
            None => None,
        },
{
    lemma_viewed_place(rows, key);
    lemma_place(rows, key);
}

/// Setting a row and taking the view of its value can be done in either order.
pub proof fn lemma_viewed_inserted<V: View>(rows: Seq<(Seq<char>, V)>, key: Seq<char>, value: V)
    ensures
        viewed(inserted(rows, key, value)) == inserted(viewed(rows), key, value@),
{
    lemma_viewed_place(rows, key);
    lemma_place(rows, key);
    assert(viewed(inserted(rows, key, value)) =~= inserted(viewed(rows), key, value@));
}

impl<V> Table<V> {
    #[verifier::type_invariant]
    spec fn paired(self) -> bool {
        self.keys@.len() == self.values@.len() && ascending(self@)
    }

    /// A table without rows.
    pub fn new() -> (r: Table<V>)
        ensures
            r@ == Seq::<(Seq<char>, V)>::empty(),
            ascending(r@),
    {
        let r: Table<V> = Table { keys: Vec::new(), values: Vec::new() };
        assert(r@ =~= Seq::<(Seq<char>, V)>::empty());
        r
    }

    pub fn len(&self) -> (r: usize)
        ensures
            r == self@.len(),
    {
        self.keys.len()
    }

    /// The key of a row.
    pub fn key(&self, i: usize) -> (r: &String)
        requires
            i < self@.len(),
        ensures
            r@ == self@[i as int].0,
    {
        &self.keys[i]
    }

    /// The value of a row.
    pub fn value(&self, i: usize) -> (r: &V)
        requires
            i < self@.len(),
        ensures
            *r == self@[i as int].1,
    {
        proof {
            use_type_invariant(self);
        }
        &self.values[i]
    }

    fn locate(&self, key: &[char]) -> (r: (usize, bool))
        ensures
            r.0 == place(self@, key@),
            r.0 <= self@.len(),
            r.1 == (r.0 < self@.len() && self@[r.0 as int].0 == key@),
    {
        let mut i: usize = 0;
        proof {
            assert(self@.skip(0) =~= self@);
        }
        while i < self.keys.len()
            invariant
                i <= self@.len(),
                self@.len() == self.keys@.len(),
                place(self@, key@) == i + place(self@.skip(i as int), key@),
            decreases self@.len() - i,
        {
            let here: Vec<char> = chars_of(self.keys[i].as_str());
            proof {
                assert(self@.skip(i as int)[0].0 == here@);
                assert(self@.skip(i as int).skip(1) =~= self@.skip(i + 1));
            }
            if !less(here.as_slice(), key) {
                return (i, same_chars(here.as_slice(), key));
            }
            i += 1;
        }
        (i, false)
    }

    /// The value in the row of `key`, where there is one.
    pub fn get(&self, key: &str) -> (r: Option<&V>)
        ensures
            match r {
                Some(v) => found(self@, key@) == Some(*v),
                None => found(self@, key@) is None,
            },
    {
        proof {
            use_type_invariant(self);
        }
        let k: Vec<char> = chars_of(key);
        let (i, here) = self.locate(k.as_slice());
        if here {
            Some(&self.values[i])
        } else {
            None
        }
    }

    pub fn contains(&self, key: &str) -> (r: bool)
        ensures
            r == found(self@, key@) is Some,
    {
        self.get(key).is_some()
    }

    /// This table with the row of `key` set to `value`.
    pub fn with(self, key: String, value: V) -> (r: Table<V>)
        ensures
            r@ == inserted(self@, key@, value),
            ascending(r@),
    {
        proof {
            use_type_invariant(&self);
            lemma_inserted(self@, key@, value);
        }
        let k: Vec<char> = chars_of(key.as_str());
        let (i, here) = self.locate(k.as_slice());
        let ghost rows = self@;
        let ghost text = key@;
        let Table { mut keys, mut values } = self;
        if here {
            values.set(i, value);
        } else {
            keys.insert(i, key);
            values.insert(i, value);
        }
        proof {
            let next = Seq::new(keys@.len(), |j: int| (keys@[j]@, values@[j]));
            assert(next =~= inserted(rows, text, value));
        }
        Table { keys, values }
    }

    /// Sets the row of `key` to `value`.
    pub fn insert(&mut self, key: String, value: V)
        ensures
            final(self)@ == inserted(old(self)@, key@, value),
            ascending(final(self)@),
    {
        let mut taken: Table<V> = Table::new();
        std::mem::swap(&mut taken, self);
        *self = taken.with(key, value);
    }
}

} // verus!
