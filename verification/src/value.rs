//! The tagged value model: primitive scalars and heap objects, with the
//! runtime's structural equality and its hashing rules.
//!
//! A float is carried as its raw IEEE-754 bit pattern, and equality and
//! hashing are defined on those bits: equality follows IEEE comparison (NaN
//! equals nothing, the two zeroes are equal), and hashing reads the bits
//! after mapping both zeroes to one canonical pattern, so that equal values
//! hash equally. Hashing fails for Nil and for a NaN float: such values must
//! never reach a hashed container.

use crate::object::class::Class;
use crate::object::Object;
use vstd::prelude::*;

verus! {

/// A runtime value.
#[derive(Debug)]
pub enum Value {
    Nil,
    Boolean(bool),
    Integer(i64),
    /// A 64-bit IEEE-754 float, carried as its raw bit pattern.
    Float(u64),
    Object(Object),
}

/// True when the bits encode an IEEE-754 NaN: exponent all ones and a
/// non-zero mantissa.
pub open spec fn float_is_nan(bits: u64) -> bool {
    bits & 0x7fff_ffff_ffff_ffff > 0x7ff0_0000_0000_0000
}

/// True when the bits encode a zero of either sign.
pub open spec fn float_is_zero(bits: u64) -> bool {
    bits & 0x7fff_ffff_ffff_ffff == 0
}

/// IEEE-754 equality on raw bits: NaN equals nothing, the two zeroes are
/// equal, and every other float equals exactly its own bit pattern.
pub open spec fn float_eq(a: u64, b: u64) -> bool {
    &&& !float_is_nan(a)
    &&& !float_is_nan(b)
    &&& (a == b || (float_is_zero(a) && float_is_zero(b)))
}

/// Structural equality of two values, variant by variant; heterogeneous
/// variants are never equal. Text compares tier-sensitively; classes compare
/// as unordered key-value mappings.
pub open spec fn vals_eq(a: Value, b: Value) -> bool
    decreases a, 0int, 0int,
{
    match (a, b) {
        (Value::Nil, Value::Nil) => true,
        (Value::Boolean(x), Value::Boolean(y)) => x == y,
        (Value::Integer(x), Value::Integer(y)) => x == y,
        (Value::Float(x), Value::Float(y)) => float_eq(x, y),
        (Value::Object(x), Value::Object(y)) => objs_eq(x, y),
        _ => false,
    }
}

/// Structural equality of two heap objects.
pub open spec fn objs_eq(a: Object, b: Object) -> bool
    decreases a, 0int, 0int,
{
    match (a, b) {
        (Object::String(s), Object::String(t)) => s.eq_spec(&t),
        (Object::Class(c), Object::Class(d)) => classes_eq(c, d),
        _ => false,
    }
}

/// The first position at or after `k` among `b`'s field pairs that matches
/// pair `i` of `a` on both key and value, or `b`'s pair count when none does.
pub open spec fn match_in_b(a: Class, b: Class, i: int, k: int) -> int
    decreases a, 1int, b.field_value@.len() - k,
{
    if k < 0 || k >= b.field_value@.len() {
        b.field_value@.len() as int
    } else if 0 <= i < a.field_value@.len() && vals_eq(
        a.field_value@[i].0,
        b.field_value@[k].0,
    ) && vals_eq(a.field_value@[i].1, b.field_value@[k].1) {
        k
    } else {
        match_in_b(a, b, i, k + 1)
    }
}

/// The first position at or after `k` among `a`'s field pairs that matches
/// pair `j` of `b` on both key and value, or `a`'s pair count when none does.
pub open spec fn match_in_a(a: Class, b: Class, j: int, k: int) -> int
    decreases a, 1int, a.field_value@.len() - k,
{
    if k < 0 || k >= a.field_value@.len() {
        a.field_value@.len() as int
    } else if 0 <= j < b.field_value@.len() && vals_eq(
        a.field_value@[k].0,
        b.field_value@[j].0,
    ) && vals_eq(a.field_value@[k].1, b.field_value@[j].1) {
        k
    } else {
        match_in_a(a, b, j, k + 1)
    }
}

/// Whether every field pair of `a` from position `from` onward is matched,
/// key and value, by some field pair of `b`.
pub open spec fn covered_from(a: Class, b: Class, from: int) -> bool
    decreases a, 2int, a.field_value@.len() - from,
{
    from >= a.field_value@.len() || (match_in_b(a, b, from, 0) < b.field_value@.len()
        && covered_from(a, b, from + 1))
}

/// Whether every field pair of `b` from position `from` onward is matched,
/// key and value, by some field pair of `a`.
pub open spec fn covers_from(a: Class, b: Class, from: int) -> bool
    decreases a, 2int, b.field_value@.len() - from,
{
    from >= b.field_value@.len() || (match_in_a(a, b, from, 0) < a.field_value@.len()
        && covers_from(a, b, from + 1))
}

/// Structural map equality of two classes: every field of one is matched by
/// a field of the other with an equal key and an equal value, in both
/// directions, regardless of storage order.
pub open spec fn classes_eq(a: Class, b: Class) -> bool
    decreases a, 3int, 0int,
{
    covered_from(a, b, 0) && covers_from(a, b, 0)
}

/// Why a value could not be hashed.
#[derive(Debug, PartialEq, Eq, Structural)]
pub enum HashError {
    /// Nil can never be a hashed key.
    NilKey,
    /// A float holding NaN can never be a hashed key.
    NanKey,
}

/// The multiplier of the 64-bit FNV-1a step, used as the hash mixer.
pub const HASH_PRIME: u64 = 0x100000001b3;

/// One mixing step of the hash: fold `x` into the accumulator `h`.
pub open spec fn mix(h: u64, x: u64) -> u64 {
    (((h ^ x) * HASH_PRIME) as u64)
}

/// The hash of a byte sequence: the bytes folded into the mixer one at a
/// time. Text hashes through this, so its hash ignores the storage tier.
pub open spec fn bytes_hash(s: Seq<u8>) -> u64
    decreases s.len(),
{
    if s.len() == 0 {
        5
    } else {
        mix(bytes_hash(s.drop_last()), s.last() as u64)
    }
}

/// The hash of a hashable value. A class hashes as the wrapping sum of its
/// key hashes alone — an order-independent aggregate — so two classes with
/// the same keys and different values may share a hash.
pub open spec fn hash_of(v: Value) -> u64
    decreases v,
{
    match v {
        Value::Nil => 0,
        Value::Boolean(b) => mix(1, if b { 1 } else { 0 }),
        Value::Integer(i) => mix(2, i as u64),
        Value::Float(bits) => mix(
            3,
            if float_is_zero(bits) {
                0
            } else {
                bits
            },
        ),
        Value::Object(Object::String(s)) => bytes_hash(s.bytes()),
        Value::Object(Object::Class(c)) => keys_hash(c.field_value@),
    }
}

/// The wrapping sum of the key hashes of a class's field pairs.
pub open spec fn keys_hash(pairs: Seq<(Value, Value)>) -> u64
    decreases pairs,
{
    if pairs.len() == 0 {
        0
    } else {
        (((keys_hash(pairs.drop_last()) + hash_of(pairs.last().0)) as u64))
    }
}

/// The error hashing `v` reports, if any: Nil and NaN floats cannot be
/// hashed, and a class can be hashed only if all its keys can, the first
/// failing key (in storage order) deciding the error.
pub open spec fn hash_err(v: Value) -> Option<HashError>
    decreases v,
{
    match v {
        Value::Nil => Some(HashError::NilKey),
        Value::Float(bits) => if float_is_nan(bits) {
            Some(HashError::NanKey)
        } else {
            None
        },
        Value::Object(Object::Class(c)) => keys_err(c.field_value@),
        _ => None,
    }
}

/// The first hashing error among a class's keys, in storage order.
pub open spec fn keys_err(pairs: Seq<(Value, Value)>) -> Option<HashError>
    decreases pairs,
{
    if pairs.len() == 0 {
        None
    } else if keys_err(pairs.drop_last()) is Some {
        keys_err(pairs.drop_last())
    } else {
        hash_err(pairs.last().0)
    }
}

/// The position of the first stored pair whose key equals `key`
/// structurally, or the length of `pairs` when no key does.
pub open spec fn key_index(pairs: Seq<(Value, Value)>, key: Value) -> int
    decreases pairs.len(),
{
    if pairs.len() == 0 {
        0
    } else if vals_eq(pairs[0].0, key) {
        0
    } else {
        1 + key_index(pairs.drop_first(), key)
    }
}

/// IEEE-754 equality on raw float bits, as `float_eq` states it.
pub fn float_eq_bits(a: u64, b: u64) -> (r: bool)
    ensures
        r == float_eq(a, b),
{
    let a_nan = a & 0x7fff_ffff_ffff_ffff > 0x7ff0_0000_0000_0000;
    let b_nan = b & 0x7fff_ffff_ffff_ffff > 0x7ff0_0000_0000_0000;
    if a_nan || b_nan {
        return false;
    }
    a == b || (a & 0x7fff_ffff_ffff_ffff == 0 && b & 0x7fff_ffff_ffff_ffff == 0)
}

/// Structural equality of two values, exactly as `vals_eq` states it.
pub fn value_eq(a: &Value, b: &Value) -> (r: bool)
    ensures
        r == vals_eq(*a, *b),
    decreases *a,
{
    match (a, b) {
        (Value::Nil, Value::Nil) => true,
        (Value::Boolean(x), Value::Boolean(y)) => *x == *y,
        (Value::Integer(x), Value::Integer(y)) => *x == *y,
        (Value::Float(x), Value::Float(y)) => float_eq_bits(*x, *y),
        (Value::Object(x), Value::Object(y)) => match (x, y) {
            (Object::String(s), Object::String(t)) => s.eq(t),
            (Object::Class(c), Object::Class(d)) => class_le(c, d) && class_ge(c, d),
            _ => false,
        },
        _ => false,
    }
}

/// A matched collection matches each of its pairs individually.
proof fn lemma_covered_instance(a: Class, b: Class, from: int, i: int)
    requires
        covered_from(a, b, from),
        from <= i < a.field_value@.len(),
    ensures
        match_in_b(a, b, i, 0) < b.field_value@.len(),
    decreases i - from,
{
    if from < i {
        lemma_covered_instance(a, b, from + 1, i);
    }
}

/// A reverse-matched collection matches each of `b`'s pairs individually.
proof fn lemma_covers_instance(a: Class, b: Class, from: int, j: int)
    requires
        covers_from(a, b, from),
        from <= j < b.field_value@.len(),
    ensures
        match_in_a(a, b, j, 0) < a.field_value@.len(),
    decreases j - from,
{
    if from < j {
        lemma_covers_instance(a, b, from + 1, j);
    }
}

/// Whether every field pair of `a` is matched by one of `b`.
fn class_le(a: &Class, b: &Class) -> (r: bool)
    ensures
        r == covered_from(*a, *b, 0),
    decreases *a,
{
    let n = a.field_value.len();
    let m = b.field_value.len();
    let mut i: usize = n;
    proof {
        assert(covered_from(*a, *b, n as int));
    }
    while i > 0
        invariant
            i <= n,
            n == a.field_value@.len(),
            m == b.field_value@.len(),
            covered_from(*a, *b, i as int),
        decreases i,
    {
        let idx = i - 1;
        let pa = &a.field_value[idx];
        let mut j: usize = 0;
        let mut found = false;
        while j < m && !found
            invariant
                j <= m,
                n == a.field_value@.len(),
                m == b.field_value@.len(),
                idx < n,
                pa == a.field_value@[idx as int],
                found ==> match_in_b(*a, *b, idx as int, 0) < m,
                !found ==> match_in_b(*a, *b, idx as int, 0) == match_in_b(
                    *a,
                    *b,
                    idx as int,
                    j as int,
                ),
            decreases m - j,
        {
            let pb = &b.field_value[j];
            let key_same = value_eq(&pa.0, &pb.0);
            let val_same = value_eq(&pa.1, &pb.1);
            proof {
                assert(key_same == vals_eq(a.field_value@[idx as int].0, b.field_value@[j as int].0));
                assert(val_same == vals_eq(a.field_value@[idx as int].1, b.field_value@[j as int].1));
            }
            if key_same && val_same {
                proof {
                    assert(match_in_b(*a, *b, idx as int, j as int) == j as int);
                }
                found = true;
            } else {
                proof {
                    assert(match_in_b(*a, *b, idx as int, j as int) == match_in_b(
                        *a,
                        *b,
                        idx as int,
                        j as int + 1,
                    ));
                }
            }
            j = j + 1;
        }
        if !found {
            proof {
                assert(match_in_b(*a, *b, idx as int, m as int) == m as int);
                if covered_from(*a, *b, 0) {
                    lemma_covered_instance(*a, *b, 0, idx as int);
                    assert(false);
                }
            }
            return false;
        }
        proof {
            assert(idx as int + 1 == i as int);
            assert(covered_from(*a, *b, idx as int));
        }
        i = idx;
    }
    true
}

/// Whether every field pair of `b` is matched by one of `a`.
fn class_ge(a: &Class, b: &Class) -> (r: bool)
    ensures
        r == covers_from(*a, *b, 0),
    decreases *a,
{
    let n = a.field_value.len();
    let m = b.field_value.len();
    let mut j: usize = m;
    proof {
        assert(covers_from(*a, *b, m as int));
    }
    while j > 0
        invariant
            j <= m,
            n == a.field_value@.len(),
            m == b.field_value@.len(),
            covers_from(*a, *b, j as int),
        decreases j,
    {
        let idx = j - 1;
        let pb = &b.field_value[idx];
        let mut i: usize = 0;
        let mut found = false;
        while i < n && !found
            invariant
                i <= n,
                n == a.field_value@.len(),
                m == b.field_value@.len(),
                idx < m,
                pb == b.field_value@[idx as int],
                found ==> match_in_a(*a, *b, idx as int, 0) < n,
                !found ==> match_in_a(*a, *b, idx as int, 0) == match_in_a(
                    *a,
                    *b,
                    idx as int,
                    i as int,
                ),
            decreases n - i,
        {
            let pa = &a.field_value[i];
            let key_same = value_eq(&pa.0, &pb.0);
            let val_same = value_eq(&pa.1, &pb.1);
            proof {
                assert(key_same == vals_eq(a.field_value@[i as int].0, b.field_value@[idx as int].0));
                assert(val_same == vals_eq(a.field_value@[i as int].1, b.field_value@[idx as int].1));
            }
            if key_same && val_same {
                proof {
                    assert(match_in_a(*a, *b, idx as int, i as int) == i as int);
                }
                found = true;
            } else {
                proof {
                    assert(match_in_a(*a, *b, idx as int, i as int) == match_in_a(
                        *a,
                        *b,
                        idx as int,
                        i as int + 1,
                    ));
                }
            }
            i = i + 1;
        }
        if !found {
            proof {
                assert(match_in_a(*a, *b, idx as int, n as int) == n as int);
                if covers_from(*a, *b, 0) {
                    lemma_covers_instance(*a, *b, 0, idx as int);
                    assert(false);
                }
            }
            return false;
        }
        proof {
            assert(idx as int + 1 == j as int);
            assert(covers_from(*a, *b, idx as int));
        }
        j = idx;
    }
    true
}

/// One mixing step of the hash, as `mix` states it.
fn mix_step(h: u64, x: u64) -> (r: u64)
    ensures
        r == mix(h, x),
{
    let mixed = h ^ x;
    proof {
        assert((mixed as u128) * (HASH_PRIME as u128) == (mixed * HASH_PRIME) as u128)
            by (nonlinear_arith);
        assert((mixed as u128) * (HASH_PRIME as u128) <= 0xffff_ffff_ffff_ffffu128
            * 0x100000001b3u128) by (nonlinear_arith)
            requires
                mixed <= 0xffff_ffff_ffff_ffffu64,
        ;
    }
    let wide = (mixed as u128) * (HASH_PRIME as u128);
    wide as u64
}

/// The tier-independent hash of a byte slice, as `bytes_hash` states it.
fn bytes_hash_exec(bytes: &[u8]) -> (r: u64)
    ensures
        r == bytes_hash(bytes@),
{
    let n = bytes.len();
    let mut acc: u64 = 5;
    let mut i: usize = 0;
    while i < n
        invariant
            i <= n,
            n == bytes@.len(),
            acc == bytes_hash(bytes@.take(i as int)),
        decreases n - i,
    {
        acc = mix_step(acc, bytes[i] as u64);
        i = i + 1;
        proof {
            assert(bytes@.take(i as int).drop_last() =~= bytes@.take(i as int - 1));
        }
    }
    proof {
        assert(bytes@.take(n as int) =~= bytes@);
    }
    acc
}

/// The hash of a value, or the error that forbids hashing it: fails exactly
/// for Nil, for a NaN float, and for a class one of whose keys fails.
pub fn value_hash(v: &Value) -> (r: Result<u64, HashError>)
    ensures
        r is Ok <==> hash_err(*v) is None,
        r is Ok ==> r.unwrap() == hash_of(*v),
        r is Err ==> Some(r.unwrap_err()) == hash_err(*v),
    decreases *v,
{
    match v {
        Value::Nil => Err(HashError::NilKey),
        Value::Boolean(b) => Ok(mix_step(1, if *b { 1 } else { 0 })),
        Value::Integer(i) => Ok(mix_step(2, *i as u64)),
        Value::Float(bits) => {
            if *bits & 0x7fff_ffff_ffff_ffff > 0x7ff0_0000_0000_0000 {
                Err(HashError::NanKey)
            } else if *bits & 0x7fff_ffff_ffff_ffff == 0 {
                Ok(mix_step(3, 0))
            } else {
                Ok(mix_step(3, *bits))
            }
        },
        Value::Object(Object::String(s)) => Ok(bytes_hash_exec(s.as_bytes())),
        Value::Object(Object::Class(c)) => {
            let n = c.field_value.len();
            let mut acc: u64 = 0;
            let mut i: usize = 0;
            while i < n
                invariant
                    i <= n,
                    n == c.field_value@.len(),
                    v == Value::Object(Object::Class(*c)),
                    keys_err(c.field_value@.take(i as int)) is None,
                    acc == keys_hash(c.field_value@.take(i as int)),
                decreases n - i,
            {
                let pair = &c.field_value[i];
                let key_hash = match value_hash(&pair.0) {
                    Ok(h) => h,
                    Err(e) => {
                        proof {
                            lemma_keys_err_prefix(c.field_value@, i as int);
                        }
                        return Err(e);
                    },
                };
                acc = ((acc as u128 + key_hash as u128) as u64);
                i = i + 1;
                proof {
                    assert(c.field_value@.take(i as int).drop_last() =~= c.field_value@.take(
                        i as int - 1,
                    ));
                }
            }
            proof {
                assert(c.field_value@.take(n as int) =~= c.field_value@);
            }
            Ok(acc)
        },
    }
}

/// Extending an error-free prefix of a class's keys by one failing key makes
/// that key's error the class's error, whatever follows it.
proof fn lemma_keys_err_prefix(pairs: Seq<(Value, Value)>, i: int)
    requires
        0 <= i < pairs.len(),
        keys_err(pairs.take(i)) is None,
        hash_err(pairs[i].0) is Some,
    ensures
        keys_err(pairs) == hash_err(pairs[i].0),
    decreases pairs.len(),
{
    if pairs.len() == i + 1 {
        assert(pairs.drop_last() =~= pairs.take(i));
    } else {
        assert(pairs.drop_last().take(i) =~= pairs.take(i));
        lemma_keys_err_prefix(pairs.drop_last(), i);
        assert(pairs.drop_last()[i] == pairs[i]);
    }
}

/// Equal values hash equally, shown here for every scalar and text value.
/// Equality of floats follows IEEE comparison, and the hash maps both zero
/// patterns to one canonical word, so the two equal zeroes agree; every
/// other equal float pair carries identical bits. Class values are compared
/// as unordered maps; their case is stated separately, for classes whose
/// stored key orders align, by `lemma_aligned_keys_hash_eq`.
pub proof fn lemma_eq_values_hash_eq(v1: Value, v2: Value)
    requires
        vals_eq(v1, v2),
        !(v1 matches Value::Object(Object::Class(_))),
    ensures
        hash_of(v1) == hash_of(v2),
{
}

/// Two key-value pair sequences whose keys are pairwise equal, position by
/// position, produce the same aggregate key hash — values play no part in
/// it. Stated for scalar and text keys, the kinds `lemma_eq_values_hash_eq`
/// covers; the aggregate of two equal classes with differently ordered
/// stores is not proved here.
pub proof fn lemma_aligned_keys_hash_eq(cp: Seq<(Value, Value)>, dp: Seq<(Value, Value)>)
    requires
        cp.len() == dp.len(),
        forall|i: int|
            0 <= i < cp.len() ==> vals_eq((#[trigger] cp[i]).0, (#[trigger] dp[i]).0)
                && !(cp[i].0 matches Value::Object(Object::Class(_))),
    ensures
        keys_hash(cp) == keys_hash(dp),
    decreases cp.len(),
{
    if cp.len() > 0 {
        let last = cp.len() - 1;
        assert(vals_eq(cp[last].0, dp[last].0));
        lemma_eq_values_hash_eq(cp[last].0, dp[last].0);
        assert forall|i: int|
            0 <= i < cp.drop_last().len() implies vals_eq(
            (#[trigger] cp.drop_last()[i]).0,
            (#[trigger] dp.drop_last()[i]).0,
        ) && !(cp.drop_last()[i].0 matches Value::Object(Object::Class(_))) by {
            assert(cp.drop_last()[i] == cp[i]);
            assert(dp.drop_last()[i] == dp[i]);
        }
        lemma_aligned_keys_hash_eq(cp.drop_last(), dp.drop_last());
    }
}

} // verus!
