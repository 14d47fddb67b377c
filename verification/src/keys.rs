//! Typed access to the keys of a game event.
use crate::demo::KeyValue;
use crate::float::Float;
use crate::order;
use crate::text;
use crate::text::{parse_i32, parse_i64, same_text};
use vstd::prelude::*;

verus! {

broadcast use vstd::string::group_string_axioms;

/// A view over a game event's keys with typed getters. Where a key occurs twice
/// the first counts; a missing key or a text that does not read as the type asked
/// for gives that type's default.
pub struct Keys<'a>(pub &'a Vec<KeyValue>);

/// The first entry under a key.
pub open spec fn entry(keys: Seq<KeyValue>, key: Seq<char>) -> Option<KeyValue> {
    order::first_match(keys, |kv: KeyValue| kv.key@ == key)
}

/// The text under a key.
pub open spec fn key_text(keys: Seq<KeyValue>, key: Seq<char>) -> Option<Seq<char>> {
    match entry(keys, key) {
        Some(kv) => Some(kv.value@),
        None => None,
    }
}

/// The integer between `lo` and `hi` under a key, else 0.
pub open spec fn key_int(keys: Seq<KeyValue>, key: Seq<char>, lo: int, hi: int) -> int {
    match key_text(keys, key) {
        Some(s) => match text::in_range(text::signed_value(s), lo, hi) {
            Some(v) => v,
            None => 0,
        },
        None => 0,
    }
}

/// The 32-bit integer under a key, else 0.
pub open spec fn key_i32(keys: Seq<KeyValue>, key: Seq<char>) -> i32 {
    key_int(keys, key, i32::MIN as int, i32::MAX as int) as i32
}

/// The 64-bit integer under a key, else 0.
pub open spec fn key_i64(keys: Seq<KeyValue>, key: Seq<char>) -> i64 {
    key_int(keys, key, i64::MIN as int, i64::MAX as int) as i64
}

/// The number under a key.
pub open spec fn key_number(keys: Seq<KeyValue>, key: Seq<char>) -> Option<Float> {
    match entry(keys, key) {
        Some(kv) => kv.number,
        None => None,
    }
}

/// Whether the text under a key is `true`.
pub open spec fn key_bool(keys: Seq<KeyValue>, key: Seq<char>) -> bool {
    key_text(keys, key) == Some("true"@)
}

/// The text under a key, else the empty text.
pub open spec fn key_string(keys: Seq<KeyValue>, key: Seq<char>) -> Seq<char> {
    match key_text(keys, key) {
        Some(s) => s,
        None => Seq::empty(),
    }
}

impl<'a> Keys<'a> {
    fn find(&self, key: &str) -> (r: Option<&KeyValue>)
        ensures
            r is Some == entry(self.0@, key@) is Some,
            r matches Some(kv) ==> entry(self.0@, key@) == Some(*kv),
    {
        let n: usize = self.0.len();
        let ghost p = |kv: KeyValue| kv.key@ == key@;
        let mut i: usize = 0;
        while i < n
            invariant
                i <= n,
                n == self.0@.len(),
                p == (|kv: KeyValue| kv.key@ == key@),
                forall|j: int| 0 <= j < i ==> !p(#[trigger] self.0@[j]),
            decreases n - i,
        {
            if same_text(self.0[i].key.as_str(), key) {
                proof {
                    order::lemma_first_match(self.0@, p, i as int);
                }
                return Some(&self.0[i]);
            }
            i = i + 1;
        }
        proof {
            order::lemma_first_match(self.0@, p, n as int);
        }
        None
    }

    /// The text under a key, if there is one.
    pub fn get(&self, key: &str) -> (r: Option<&str>)
        ensures
            r is Some == key_text(self.0@, key@) is Some,
            r matches Some(s) ==> key_text(self.0@, key@) == Some(s@),
    {
        match self.find(key) {
            Some(kv) => Some(kv.value.as_str()),
            None => None,
        }
    }

    /// The 32-bit integer under a key, else 0.
    pub fn i32(&self, key: &str) -> (v: i32)
        ensures
            v == key_i32(self.0@, key@),
    {
        match self.get(key) {
            Some(s) => match parse_i32(s) {
                Some(v) => v,
                None => 0,
            },
            None => 0,
        }
    }

    /// The 64-bit integer under a key, else 0.
    pub fn i64(&self, key: &str) -> (v: i64)
        ensures
            v == key_i64(self.0@, key@),
    {
        match self.get(key) {
            Some(s) => match parse_i64(s) {
                Some(v) => v,
                None => 0,
            },
            None => 0,
        }
    }

    /// The single-precision number under a key, if the text writes one.
    pub fn number(&self, key: &str) -> (v: Option<Float>)
        ensures
            v == key_number(self.0@, key@),
    {
        match self.find(key) {
            Some(kv) => kv.number,
            None => None,
        }
    }

    /// Whether the text under a key is `true`.
    pub fn bool(&self, key: &str) -> (v: bool)
        ensures
            v == key_bool(self.0@, key@),
    {
        match self.get(key) {
            Some(s) => same_text(s, "true"),
            None => false,
        }
    }

    /// The text under a key, else the empty text.
    pub fn string(&self, key: &str) -> (v: String)
        ensures
            v@ == key_string(self.0@, key@),
    {
        match self.get(key) {
            Some(s) => s.to_string(),
            None => String::new(),
        }
    }
}

} // verus!
