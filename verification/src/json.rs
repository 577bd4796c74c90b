//! A JSON value as the timeline reader sees it, and the lookups it makes.
use vstd::prelude::*;
use crate::text::str_eq;

verus! {

/// A JSON document. Objects keep their members in order; a lookup takes the
/// first member with the key.
pub enum Json {
    Null,
    Bool(bool),
    /// A number; the value when it is a non-negative integer that fits in `u64`.
    Number(Option<u64>),
    Str(String),
    Array(Vec<Json>),
    Object(Vec<(String, Json)>),
}

/// How many nodes a document has; every lookup lands on a smaller one.
pub open spec fn size(j: Json) -> nat
    decreases j,
{
    match j {
        Json::Array(items) => 1 + items_size(items@),
        Json::Object(fields) => 1 + fields_size(fields@),
        _ => 1,
    }
}

pub open spec fn items_size(s: Seq<Json>) -> nat
    decreases s,
{
    if s.len() == 0 {
        0
    } else {
        size(s[0]) + items_size(s.drop_first())
    }
}

pub open spec fn fields_size(s: Seq<(String, Json)>) -> nat
    decreases s,
{
    if s.len() == 0 {
        0
    } else {
        size(s[0].1) + fields_size(s.drop_first())
    }
}

/// The first member of `fields` named `key`.
pub open spec fn lookup(fields: Seq<(String, Json)>, key: Seq<char>) -> Option<Json>
    decreases fields.len(),
{
    if fields.len() == 0 {
        None
    } else if fields[0].0@ == key {
        Some(fields[0].1)
    } else {
        lookup(fields.drop_first(), key)
    }
}

/// `value.get(key)`: a member of an object, nothing for anything else.
pub open spec fn member(j: Json, key: Seq<char>) -> Option<Json> {
    match j {
        Json::Object(fields) => lookup(fields@, key),
        _ => None,
    }
}

pub proof fn lemma_lookup_smaller(fields: Seq<(String, Json)>, key: Seq<char>)
    ensures
        lookup(fields, key) matches Some(v) ==> size(v) <= fields_size(fields),
    decreases fields.len(),
{
    if fields.len() > 0 {
        lemma_lookup_smaller(fields.drop_first(), key);
    }
}

pub proof fn lemma_member_smaller(j: Json, key: Seq<char>)
    ensures
        member(j, key) matches Some(v) ==> size(v) < size(j),
{
    if let Json::Object(fields) = j {
        lemma_lookup_smaller(fields@, key);
    }
}


/// Two members deep (`Value::pointer("/a/b")`).
pub open spec fn member2(j: Json, a: Seq<char>, b: Seq<char>) -> Option<Json> {
    match member(j, a) {
        Some(v) => member(v, b),
        None => None,
    }
}

/// Three members deep.
pub open spec fn member3(j: Json, a: Seq<char>, b: Seq<char>, c: Seq<char>) -> Option<Json> {
    match member2(j, a, b) {
        Some(v) => member(v, c),
        None => None,
    }
}

/// Four members deep.
pub open spec fn member4(j: Json, a: Seq<char>, b: Seq<char>, c: Seq<char>, d: Seq<char>) -> Option<Json> {
    match member3(j, a, b, c) {
        Some(v) => member(v, d),
        None => None,
    }
}

pub proof fn lemma_member2_smaller(j: Json, a: Seq<char>, b: Seq<char>)
    ensures
        member2(j, a, b) matches Some(v) ==> size(v) < size(j),
{
    lemma_member_smaller(j, a);
    if let Some(v) = member(j, a) {
        lemma_member_smaller(v, b);
    }
}

pub open spec fn str_of(j: Json) -> Option<Seq<char>> {
    match j {
        Json::Str(s) => Some(s@),
        _ => None,
    }
}

pub open spec fn u64_of(j: Json) -> Option<u64> {
    match j {
        Json::Number(n) => n,
        _ => None,
    }
}

pub open spec fn bool_of(j: Json) -> Option<bool> {
    match j {
        Json::Bool(b) => Some(b),
        _ => None,
    }
}

pub open spec fn array_of(j: Json) -> Option<Seq<Json>> {
    match j {
        Json::Array(items) => Some(items@),
        _ => None,
    }
}

/// `o.and_then(Value::as_str)`.
pub open spec fn opt_str(o: Option<Json>) -> Option<Seq<char>> {
    match o {
        Some(j) => str_of(j),
        None => None,
    }
}

/// `o.and_then(Value::as_u64)`.
pub open spec fn opt_u64(o: Option<Json>) -> Option<u64> {
    match o {
        Some(j) => u64_of(j),
        None => None,
    }
}

/// `o.and_then(Value::as_bool)`.
pub open spec fn opt_bool(o: Option<Json>) -> Option<bool> {
    match o {
        Some(j) => bool_of(j),
        None => None,
    }
}

/// `o.and_then(Value::as_array)`.
pub open spec fn opt_array(o: Option<Json>) -> Option<Seq<Json>> {
    match o {
        Some(j) => array_of(j),
        None => None,
    }
}

pub open spec fn deref(o: Option<&Json>) -> Option<Json> {
    match o {
        Some(j) => Some(*j),
        None => None,
    }
}

impl Json {
    /// The member named `key` of an object; nothing for anything else.
    pub fn get(&self, key: &str) -> (r: Option<&Json>)
        ensures
            deref(r) == member(*self, key@),
    {
        match self {
            Json::Object(fields) => {
                let mut i: usize = 0;
                assert(fields@.skip(0) == fields@);
                while i < fields.len()
                    invariant
                        i <= fields.len(),
                        *self == Json::Object(*fields),
                        lookup(fields@, key@) == lookup(fields@.skip(i as int), key@),
                    decreases fields.len() - i,
                {
                    assert(fields@.skip(i as int).drop_first() == fields@.skip(i + 1));
                    assert(fields@.skip(i as int)[0] == fields@[i as int]);
                    if str_eq(fields[i].0.as_str(), key) {
                        assert(lookup(fields@.skip(i as int), key@) == Some(fields@[i as int].1));
                        return Some(&fields[i].1);
                    }
                    i = i + 1;
                }
                None
            },
            _ => None,
        }
    }

    /// `pointer("/a/b")`.
    pub fn get2(&self, a: &str, b: &str) -> (r: Option<&Json>)
        ensures
            deref(r) == member2(*self, a@, b@),
    {
        match self.get(a) {
            Some(v) => v.get(b),
            None => None,
        }
    }

    /// `pointer("/a/b/c")`.
    pub fn get3(&self, a: &str, b: &str, c: &str) -> (r: Option<&Json>)
        ensures
            deref(r) == member3(*self, a@, b@, c@),
    {
        match self.get2(a, b) {
            Some(v) => v.get(c),
            None => None,
        }
    }

    /// `pointer("/a/b/c/d")`.
    pub fn get4(&self, a: &str, b: &str, c: &str, d: &str) -> (r: Option<&Json>)
        ensures
            deref(r) == member4(*self, a@, b@, c@, d@),
    {
        match self.get3(a, b, c) {
            Some(v) => v.get(d),
            None => None,
        }
    }

    pub fn as_str(&self) -> (r: Option<&str>)
        ensures
            match r {
                Some(s) => str_of(*self) == Some(s@),
                None => str_of(*self) is None,
            },
    {
        match self {
            Json::Str(s) => Some(s.as_str()),
            _ => None,
        }
    }

    pub fn as_u64(&self) -> (r: Option<u64>)
        ensures
            r == u64_of(*self),
    {
        match self {
            Json::Number(n) => *n,
            _ => None,
        }
    }

    pub fn as_bool(&self) -> (r: Option<bool>)
        ensures
            r == bool_of(*self),
    {
        match self {
            Json::Bool(b) => Some(*b),
            _ => None,
        }
    }

    pub fn as_array(&self) -> (r: Option<&Vec<Json>>)
        ensures
            match r {
                Some(v) => array_of(*self) == Some(v@),
                None => array_of(*self) is None,
            },
    {
        match self {
            Json::Array(items) => Some(items),
            _ => None,
        }
    }
}

} // verus!
