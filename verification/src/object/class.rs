//! A class instance's field storage: a Value-to-Value mapping.
//!
//! Fields are kept as key-value pairs with unique keys (last write wins on a
//! duplicate key). A key must be hashable — Nil and NaN-float keys are
//! rejected at insertion, so no unhashable key can ever reach a hashed
//! container downstream.

use crate::value::hash_err;
use crate::value::key_index;
use crate::value::value_eq;
use crate::value::value_hash;
use crate::value::vals_eq;
use crate::value::HashError;
use crate::value::Value;
use vstd::prelude::*;

verus! {

/// A class instance: its field mapping.
#[derive(Debug)]
pub struct Class {
    pub field_value: Vec<(Value, Value)>,
}

impl Class {
    /// Uniqueness and hashability of the stored keys: no two pairs carry
    /// equal keys, and every key is hashable.
    pub open spec fn wf(&self) -> bool {
        let pairs = self.field_value@;
        &&& forall|i: int, j: int|
            0 <= i < j < pairs.len() ==> !vals_eq(#[trigger] pairs[i].0, #[trigger] pairs[j].0)
        &&& forall|i: int| 0 <= i < pairs.len() ==> hash_err(#[trigger] pairs[i].0) is None
    }

    /// A class with no fields.
    pub fn new() -> (class: Self)
        ensures
            class.wf(),
            class.field_value@ == Seq::<(Value, Value)>::empty(),
    {
        Class { field_value: Vec::new() }
    }

    /// How many fields the class holds.
    pub fn len(&self) -> (n: usize)
        ensures
            n == self.field_value@.len(),
    {
        self.field_value.len()
    }

    /// Inserts a field. An unhashable key (Nil, or a NaN float, or a class
    /// with such a key) is rejected with its hashing error and nothing
    /// changes. Otherwise, if an equal key is already stored, its value is
    /// overwritten in place (the stored key is kept); a new key is appended.
    pub fn insert(&mut self, key: Value, value: Value) -> (r: Result<(), HashError>)
        requires
            old(self).wf(),
        ensures
            final(self).wf(),
            hash_err(key) is Some ==> r is Err && Some(r.unwrap_err()) == hash_err(key)
                && final(self).field_value@ == old(self).field_value@,
            hash_err(key) is None ==> r is Ok && {
                let pairs = old(self).field_value@;
                let idx = key_index(pairs, key);
                if idx < pairs.len() {
                    final(self).field_value@ == pairs.update(idx, (pairs[idx].0, value))
                } else {
                    final(self).field_value@ == pairs.push((key, value))
                }
            },
    {
        match value_hash(&key) {
            Err(e) => Err(e),
            Ok(_) => {
                let n = self.field_value.len();
                let mut i: usize = 0;
                while i < n
                    invariant
                        self.wf(),
                        self.field_value@ == old(self).field_value@,
                        hash_err(key) is None,
                        i <= n,
                        n == self.field_value@.len(),
                        forall|p: int|
                            0 <= p < i ==> !vals_eq(
                                (#[trigger] self.field_value@[p]).0,
                                key,
                            ),
                    decreases n - i,
                {
                    let pair = &self.field_value[i];
                    if value_eq(&pair.0, &key) {
                        proof {
                            lemma_key_index_is(self.field_value@, key, i as int);
                        }
                        let stored = self.field_value.remove(i);
                        self.field_value.insert(i, (stored.0, value));
                        proof {
                            let pre = old(self).field_value@;
                            let post = self.field_value@;
                            assert(post =~= pre.update(i as int, (pre[i as int].0, value)));
                            assert(forall|p: int|
                                0 <= p < post.len() ==> (#[trigger] post[p]).0 == pre[p].0);
                        }
                        return Ok(());
                    }
                    i = i + 1;
                }
                proof {
                    lemma_key_index_none(self.field_value@, key);
                }
                self.field_value.push((key, value));
                proof {
                    let pre = old(self).field_value@;
                    let post = self.field_value@;
                    assert(forall|p: int| 0 <= p < pre.len() ==> (#[trigger] post[p]).0 == pre[p].0);
                    assert(post[pre.len() as int].0 == key);
                }
                Ok(())
            }
        }
    }

    /// Looks a field up by key, matching keys by structural equality.
    pub fn get(&self, key: &Value) -> (found: Option<&Value>)
        ensures
            ({
                let pairs = self.field_value@;
                let idx = key_index(pairs, *key);
                if idx < pairs.len() {
                    found is Some && found.unwrap() == pairs[idx].1
                } else {
                    found is None
                }
            }),
    {
        let n = self.field_value.len();
        let mut i: usize = 0;
        while i < n
            invariant
                i <= n,
                n == self.field_value@.len(),
                forall|p: int|
                    0 <= p < i ==> !vals_eq((#[trigger] self.field_value@[p]).0, *key),
            decreases n - i,
        {
            let pair = &self.field_value[i];
            if value_eq(&pair.0, key) {
                proof {
                    lemma_key_index_is(self.field_value@, *key, i as int);
                }
                return Some(&pair.1);
            }
            i = i + 1;
        }
        proof {
            lemma_key_index_none(self.field_value@, *key);
        }
        None
    }
}

/// If no key before position `i` equals `key` and the key at `i` does,
/// `key_index` lands on `i`.
proof fn lemma_key_index_is(pairs: Seq<(Value, Value)>, key: Value, i: int)
    requires
        0 <= i < pairs.len(),
        forall|p: int| 0 <= p < i ==> !vals_eq((#[trigger] pairs[p]).0, key),
        vals_eq(pairs[i].0, key),
    ensures
        key_index(pairs, key) == i,
    decreases i,
{
    if i > 0 {
        lemma_key_index_is(pairs.drop_first(), key, i - 1);
    }
}

/// If no stored key equals `key`, `key_index` lands past the end.
proof fn lemma_key_index_none(pairs: Seq<(Value, Value)>, key: Value)
    requires
        forall|p: int| 0 <= p < pairs.len() ==> !vals_eq((#[trigger] pairs[p]).0, key),
    ensures
        key_index(pairs, key) == pairs.len(),
    decreases pairs.len(),
{
    if pairs.len() > 0 {
        lemma_key_index_none(pairs.drop_first(), key);
    }
}

} // verus!
