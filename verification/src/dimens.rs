//! String-keyed typed property bag attached to domain entities.
//!
//! Jobs, vehicles and shifts carry semantic tags such as `"type"`,
//! `"vehicle_id"` or `"shift_index"` in a `Dimensions` value. The bag is a
//! closed tagged-variant store: a key is bound to either a string or an
//! integer, and typed accessors return `None` on a missing or wrong-typed
//! key instead of casting.

use vstd::prelude::*;

verus! {

/// A typed value stored in a [`Dimensions`] property bag.
pub enum DimenValue {
    Str(String),
    Int(usize),
}

/// One key/value entry of a [`Dimensions`] bag.
pub struct Dimen {
    pub key: String,
    pub value: DimenValue,
}

/// String-keyed typed property bag.
///
/// Entries are kept in insertion order; a later entry shadows an earlier
/// one with the same key, so no uniqueness invariant is needed.
pub struct Dimensions {
    pub items: Vec<Dimen>,
}

/// The value bound to `key` in `items`: the last entry with that key wins.
pub open spec fn dim_lookup(items: Seq<Dimen>, key: Seq<char>) -> Option<DimenValue>
    decreases items.len(),
{
    if items.len() == 0 {
        None
    } else if items.last().key@ == key {
        Some(items.last().value)
    } else {
        dim_lookup(items.drop_last(), key)
    }
}

/// Whether two strings hold the same characters.
pub fn string_eq(a: &String, b: &String) -> (r: bool)
    ensures
        r == (a@ == b@),
{
    a.eq(b)
}

impl Dimensions {
    /// The value bound to `key`, if any.
    pub open spec fn spec_get(self, key: Seq<char>) -> Option<DimenValue> {
        dim_lookup(self.items@, key)
    }

    /// The string bound to `key`, if `key` is bound to a string.
    pub open spec fn spec_get_str(self, key: Seq<char>) -> Option<Seq<char>> {
        match self.spec_get(key) {
            Some(DimenValue::Str(s)) => Some(s@),
            _ => None,
        }
    }

    /// The integer bound to `key`, if `key` is bound to an integer.
    pub open spec fn spec_get_int(self, key: Seq<char>) -> Option<usize> {
        match self.spec_get(key) {
            Some(DimenValue::Int(v)) => Some(v),
            _ => None,
        }
    }

    /// An empty bag: no key is bound.
    pub fn new() -> (d: Dimensions)
        ensures
            d.items@.len() == 0,
            forall|k: Seq<char>| d.spec_get(k) is None,
    {
        Dimensions { items: Vec::new() }
    }

    /// Looks `key` up in the bag.
    pub fn get<'a>(&'a self, key: &str) -> (r: Option<&'a DimenValue>)
        ensures
            match r {
                Some(v) => self.spec_get(key@) == Some(*v),
                None => self.spec_get(key@) is None,
            },
    {
        let k: String = key.to_owned();
        let n = self.items.len();
        let mut i: usize = n;
        proof {
            assert(self.items@.subrange(0, n as int) =~= self.items@);
        }
        while i > 0
            invariant
                i <= n,
                n == self.items@.len(),
                k@ == key@,
                dim_lookup(self.items@, key@) == dim_lookup(
                    self.items@.subrange(0, i as int),
                    key@,
                ),
            decreases i,
        {
            i = i - 1;
            proof {
                assert(self.items@.subrange(0, i + 1).last() == self.items@[i as int]);
                assert(self.items@.subrange(0, i + 1).drop_last() =~= self.items@.subrange(
                    0,
                    i as int,
                ));
            }
            if string_eq(&self.items[i].key, &k) {
                return Some(&self.items[i].value);
            }
        }
        proof {
            assert(self.items@.subrange(0, 0).len() == 0);
        }
        None
    }

    /// The string bound to `key`; `None` on a missing or wrong-typed key.
    pub fn get_str<'a>(&'a self, key: &str) -> (r: Option<&'a String>)
        ensures
            match r {
                Some(s) => self.spec_get_str(key@) == Some(s@),
                None => self.spec_get_str(key@) is None,
            },
    {
        match self.get(key) {
            Some(DimenValue::Str(s)) => Some(s),
            _ => None,
        }
    }

    /// The integer bound to `key`; `None` on a missing or wrong-typed key.
    pub fn get_int(&self, key: &str) -> (r: Option<usize>)
        ensures
            r == self.spec_get_int(key@),
    {
        match self.get(key) {
            Some(DimenValue::Int(v)) => Some(*v),
            _ => None,
        }
    }

    /// Binds `key` to `value`, shadowing any earlier binding.
    pub fn set(&mut self, key: &str, value: DimenValue)
        ensures
            final(self).spec_get(key@) == Some(value),
            forall|k: Seq<char>| k != key@ ==> final(self).spec_get(k) == old(self).spec_get(k),
            final(self).items@.len() == old(self).items@.len() + 1,
    {
        let k: String = key.to_owned();
        self.items.push(Dimen { key: k, value });
        proof {
            assert(self.items@.drop_last() =~= old(self).items@);
        }
    }

    /// Binds `key` to the string `value`.
    pub fn set_str(&mut self, key: &str, value: &str)
        ensures
            final(self).spec_get_str(key@) == Some(value@),
            forall|k: Seq<char>| k != key@ ==> final(self).spec_get(k) == old(self).spec_get(k),
    {
        self.set(key, DimenValue::Str(value.to_owned()));
    }

    /// Binds `key` to the integer `value`.
    pub fn set_int(&mut self, key: &str, value: usize)
        ensures
            final(self).spec_get(key@) == Some(DimenValue::Int(value)),
            forall|k: Seq<char>| k != key@ ==> final(self).spec_get(k) == old(self).spec_get(k),
    {
        self.set(key, DimenValue::Int(value));
    }

    /// The entity id tag, stored under the key `"id"`.
    pub fn get_id<'a>(&'a self) -> (r: Option<&'a String>)
        ensures
            match r {
                Some(s) => self.spec_get_str("id"@) == Some(s@),
                None => self.spec_get_str("id"@) is None,
            },
    {
        self.get_str("id")
    }

    /// Sets the entity id tag under the key `"id"`.
    pub fn set_id(&mut self, id: &str)
        ensures
            final(self).spec_get_str("id"@) == Some(id@),
            forall|k: Seq<char>| k != "id"@ ==> final(self).spec_get(k) == old(self).spec_get(k),
    {
        self.set_str("id", id);
    }
}

} // verus!
