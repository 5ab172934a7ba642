//! Length-tiered text storage.
//!
//! A text value picks one of three storage shapes once, at construction, by
//! byte length, and never migrates: an inline buffer of up to
//! `SHORT_STR_MAX` bytes, a fixed shared buffer of up to `MID_STR_MAX`
//! bytes, or a growable shared buffer for anything longer. The fixed-capacity
//! buffers are modelled by byte vectors bounded by the tier's capacity; in
//! the running system the two shared tiers live behind collector-owned
//! handles, which the embedding layer supplies.

use crate::utils::decimal::dec_digits;
use crate::utils::decimal::dec_text;
use crate::utils::decimal::i64_text;
use crate::utils::decimal::u64_text;
use crate::value::Value;
use vstd::prelude::*;
use vstd::slice::slice_to_vec;
use vstd::utf8::valid_utf8;
use vstd::utf8::valid_first_scalar;
use vstd::utf8::pop_first_scalar;

verus! {

/// Capacity in bytes of the inline tier.
pub const SHORT_STR_MAX: usize = 14;

/// Capacity in bytes of the fixed shared-buffer tier.
pub const MID_STR_MAX: usize = 48;

/// A text value in one of the three storage tiers.
#[derive(Debug)]
pub enum Str {
    ShortStr(Vec<u8>),
    MidStr(Vec<u8>),
    LongStr(Vec<u8>),
}

/// The storage tier a text value was built in.
#[derive(Debug, PartialEq, Eq, Structural)]
pub enum StrTier {
    Short,
    Mid,
    Long,
}

/// The tier that construction selects for a byte sequence of length `len`:
/// the smallest tier whose capacity holds it.
pub open spec fn tier_of(len: nat) -> StrTier {
    if len <= SHORT_STR_MAX {
        StrTier::Short
    } else if len <= MID_STR_MAX {
        StrTier::Mid
    } else {
        StrTier::Long
    }
}

impl Str {
    /// The stored byte content, whatever the tier.
    pub closed spec fn bytes(&self) -> Seq<u8> {
        match self {
            Str::ShortStr(v) => v@,
            Str::MidStr(v) => v@,
            Str::LongStr(v) => v@,
        }
    }

    /// The tier this value was built in.
    pub closed spec fn tier(&self) -> StrTier {
        match self {
            Str::ShortStr(_) => StrTier::Short,
            Str::MidStr(_) => StrTier::Mid,
            Str::LongStr(_) => StrTier::Long,
        }
    }

    /// The tier invariant: the stored length never exceeds the capacity of
    /// the tier the value was built in.
    pub open spec fn wf(&self) -> bool {
        match self.tier() {
            StrTier::Short => self.bytes().len() <= SHORT_STR_MAX,
            StrTier::Mid => self.bytes().len() <= MID_STR_MAX,
            StrTier::Long => true,
        }
    }

    /// Equality as the runtime defines it: byte-for-byte, but only within a
    /// single tier. Values of different tiers are never equal, even with
    /// identical byte content.
    pub open spec fn eq_spec(&self, other: &Str) -> bool {
        self.tier() == other.tier() && self.bytes() == other.bytes()
    }

    /// Encodes a byte sequence as text, selecting the smallest tier whose
    /// capacity holds it and copying the bytes unchanged.
    pub fn from(bytes: &[u8]) -> (text: Str)
        ensures
            text.wf(),
            text.bytes() == bytes@,
            text.tier() == tier_of(bytes@.len()),
    {
        let l = bytes.len();
        if l <= SHORT_STR_MAX {
            Str::ShortStr(slice_to_vec(bytes))
        } else if l <= MID_STR_MAX {
            Str::MidStr(slice_to_vec(bytes))
        } else {
            Str::LongStr(slice_to_vec(bytes))
        }
    }

    /// Decodes the stored bytes, tier-transparently and without copying.
    pub fn as_bytes(&self) -> (bytes: &[u8])
        ensures
            bytes@ == self.bytes(),
    {
        match self {
            Str::ShortStr(v) => v.as_slice(),
            Str::MidStr(v) => v.as_slice(),
            Str::LongStr(v) => v.as_slice(),
        }
    }

    /// Tier-sensitive equality, exactly as `eq_spec` states it.
    pub fn eq(&self, other: &Str) -> (r: bool)
        ensures
            r == self.eq_spec(other),
    {
        match (self, other) {
            (Str::ShortStr(a), Str::ShortStr(b)) => bytes_eq(a.as_slice(), b.as_slice()),
            (Str::MidStr(a), Str::MidStr(b)) => bytes_eq(a.as_slice(), b.as_slice()),
            (Str::LongStr(a), Str::LongStr(b)) => bytes_eq(a.as_slice(), b.as_slice()),
            _ => false,
        }
    }

    /// Concatenation: decodes both operands, joins the bytes, and re-encodes,
    /// re-running tier selection on the joined length. Fails exactly when
    /// either operand's bytes are not valid UTF-8 text.
    pub fn add(&self, rhs: &Str) -> (sum: Result<Str, TextError>)
        ensures
            sum is Ok <==> valid_utf8(self.bytes()) && valid_utf8(rhs.bytes()),
            sum is Ok ==> {
                &&& sum.unwrap().wf()
                &&& sum.unwrap().bytes() == self.bytes() + rhs.bytes()
                &&& sum.unwrap().tier() == tier_of(self.bytes().len() + rhs.bytes().len())
            },
            sum is Err ==> sum.unwrap_err() == TextError::NotUtf8,
    {
        if !is_utf8(self.as_bytes()) || !is_utf8(rhs.as_bytes()) {
            return Err(TextError::NotUtf8);
        }
        let mut joined = slice_to_vec(self.as_bytes());
        let mut tail = slice_to_vec(rhs.as_bytes());
        joined.append(&mut tail);
        Ok(Str::from(joined.as_slice()))
    }
}

/// Why a text operation could not produce text.
#[derive(Debug, PartialEq, Eq, Structural)]
pub enum TextError {
    /// The bytes involved are not a valid UTF-8 encoding.
    NotUtf8,
    /// The value holds a float, whose decimal rendering this layer leaves to
    /// the embedding runtime.
    Float,
}

/// Byte-for-byte comparison of two byte slices.
pub fn bytes_eq(a: &[u8], b: &[u8]) -> (r: bool)
    ensures
        r == (a@ == b@),
{
    let n = a.len();
    if n != b.len() {
        return false;
    }
    let mut i: usize = 0;
    while i < n
        invariant
            i <= n,
            n == a@.len(),
            n == b@.len(),
            forall|j: int| 0 <= j < i ==> a@[j] == b@[j],
        decreases n - i,
    {
        if a[i] != b[i] {
            return false;
        }
        i = i + 1;
    }
    proof {
        assert(a@ =~= b@);
    }
    true
}

/// Checks whether `bytes` is a valid UTF-8 encoding, one scalar at a time.
pub fn is_utf8(bytes: &[u8]) -> (ok: bool)
    ensures
        ok == valid_utf8(bytes@),
{
    let n = bytes.len();
    let mut i: usize = 0;
    proof {
        assert(bytes@.skip(0) =~= bytes@);
    }
    while i < n
        invariant
            i <= n,
            n == bytes@.len(),
            valid_utf8(bytes@) == valid_utf8(bytes@.skip(i as int)),
        decreases n - i,
    {
        let ghost suffix = bytes@.skip(i as int);
        let remaining = n - i;
        let b0 = bytes[i];
        proof {
            assert(suffix[0] == bytes@[i as int]);
        }
        let width: usize;
        if b0 < 0x80 {
            proof {
                assert((b0 & 0x7f) < 0x80) by (bit_vector);
                assert(valid_first_scalar(suffix));
            }
            width = 1;
        } else if b0 < 0xc0 {
            return false;
        } else if b0 < 0xe0 {
            if remaining < 2 {
                return false;
            }
            let b1 = bytes[i + 1];
            proof {
                assert(suffix[1] == bytes@[i as int + 1]);
            }
            if !(0x80 <= b1 && b1 < 0xc0) {
                return false;
            }
            let cp: u32 = (((b0 & 0x1f) as u32) << 6u32) | ((b1 & 0x3f) as u32);
            if cp < 0x80 {
                return false;
            }
            proof {
                assert((((b0 & 0x1f) as u32) << 6u32) | ((b1 & 0x3f) as u32) < 0x800u32)
                    by (bit_vector);
                assert(valid_first_scalar(suffix));
            }
            width = 2;
        } else if b0 < 0xf0 {
            if remaining < 3 {
                return false;
            }
            let b1 = bytes[i + 1];
            let b2 = bytes[i + 2];
            proof {
                assert(suffix[1] == bytes@[i as int + 1]);
                assert(suffix[2] == bytes@[i as int + 2]);
            }
            if !(0x80 <= b1 && b1 < 0xc0) || !(0x80 <= b2 && b2 < 0xc0) {
                return false;
            }
            let cp: u32 = (((b0 & 0x0f) as u32) << 12u32) | (((b1 & 0x3f) as u32) << 6u32) | ((b2
                & 0x3f) as u32);
            if cp < 0x800 {
                return false;
            }
            if 0xd800 <= cp && cp <= 0xdfff {
                return false;
            }
            proof {
                assert(valid_first_scalar(suffix));
            }
            width = 3;
        } else if b0 < 0xf8 {
            if remaining < 4 {
                return false;
            }
            let b1 = bytes[i + 1];
            let b2 = bytes[i + 2];
            let b3 = bytes[i + 3];
            proof {
                assert(suffix[1] == bytes@[i as int + 1]);
                assert(suffix[2] == bytes@[i as int + 2]);
                assert(suffix[3] == bytes@[i as int + 3]);
            }
            if !(0x80 <= b1 && b1 < 0xc0) || !(0x80 <= b2 && b2 < 0xc0) || !(0x80 <= b3 && b3
                < 0xc0) {
                return false;
            }
            let cp: u32 = (((b0 & 0x07) as u32) << 18u32) | (((b1 & 0x3f) as u32) << 12u32) | (((b2
                & 0x3f) as u32) << 6u32) | ((b3 & 0x3f) as u32);
            if !(0x10000 <= cp && cp <= 0x10ffff) {
                return false;
            }
            proof {
                assert(valid_first_scalar(suffix));
            }
            width = 4;
        } else {
            return false;
        }
        proof {
            assert(valid_first_scalar(suffix));
            assert(pop_first_scalar(suffix) =~= bytes@.skip(i as int + width as int));
        }
        i = i + width;
    }
    proof {
        assert(valid_utf8(bytes@.skip(n as int)));
    }
    true
}

/// Tier selection is deterministic and stable: any two text values encoded
/// from the same byte sequence carry the same tier and compare equal.
pub proof fn lemma_encode_deterministic(t1: Str, t2: Str, s: Seq<u8>)
    requires
        t1.bytes() == s,
        t2.bytes() == s,
        t1.tier() == tier_of(s.len()),
        t2.tier() == tier_of(s.len()),
    ensures
        t1.eq_spec(&t2),
{
}

/// Text values of different tiers are never equal, whatever bytes they hold.
pub proof fn lemma_cross_tier_unequal(t1: Str, t2: Str)
    requires
        t1.tier() != t2.tier(),
    ensures
        !t1.eq_spec(&t2),
{
}

/// The textual projection of a value, where this layer defines one: `nil`,
/// the boolean words, canonical decimal for an integer, a text value's
/// decoded content, and a diagnostic (non-canonical) dump for a class. A
/// float's rendering is left to the embedding runtime.
pub open spec fn text_of(v: Value) -> Seq<u8> {
    match v {
        Value::Nil => seq![110u8, 105u8, 108u8],
        Value::Boolean(b) => if b {
            seq![116u8, 114u8, 117u8, 101u8]
        } else {
            seq![102u8, 97u8, 108u8, 115u8, 101u8]
        },
        Value::Integer(i) => dec_text(i as int),
        Value::Float(_) => Seq::empty(),
        Value::Object(crate::object::Object::String(s)) => s.bytes(),
        Value::Object(crate::object::Object::Class(c)) => seq![
            99u8,
            108u8,
            97u8,
            115u8,
            115u8,
            40u8,
        ] + dec_digits(c.field_value@.len()) + seq![41u8],
    }
}

/// Whether this layer can project the value to text: floats are left to the
/// embedding runtime, and text content must be valid UTF-8.
pub open spec fn text_ok(v: Value) -> bool {
    match v {
        Value::Float(_) => false,
        Value::Object(crate::object::Object::String(s)) => valid_utf8(s.bytes()),
        _ => true,
    }
}

/// Projects a value to its textual form for diagnostics and composite keys.
/// Fails with `NotUtf8` on text whose bytes are not valid UTF-8, and with
/// `Float` on a float, whose rendering this layer does not define.
pub fn value_text(v: &Value) -> (r: Result<Vec<u8>, TextError>)
    ensures
        r is Ok <==> text_ok(*v),
        r is Ok ==> r.unwrap()@ == text_of(*v),
        v matches Value::Float(_) ==> r == Err::<Vec<u8>, TextError>(TextError::Float),
        r is Err && !(v matches Value::Float(_)) ==> r == Err::<Vec<u8>, TextError>(
            TextError::NotUtf8,
        ),
{
    match v {
        Value::Nil => {
            let mut text: Vec<u8> = Vec::new();
            text.push(110);
            text.push(105);
            text.push(108);
            proof {
                assert(text@ =~= text_of(*v));
            }
            Ok(text)
        },
        Value::Boolean(b) => {
            let mut text: Vec<u8> = Vec::new();
            if *b {
                text.push(116);
                text.push(114);
                text.push(117);
                text.push(101);
            } else {
                text.push(102);
                text.push(97);
                text.push(108);
                text.push(115);
                text.push(101);
            }
            proof {
                assert(text@ =~= text_of(*v));
            }
            Ok(text)
        },
        Value::Integer(i) => Ok(i64_text(*i)),
        Value::Float(_) => Err(TextError::Float),
        Value::Object(crate::object::Object::String(s)) => {
            if is_utf8(s.as_bytes()) {
                Ok(slice_to_vec(s.as_bytes()))
            } else {
                Err(TextError::NotUtf8)
            }
        },
        Value::Object(crate::object::Object::Class(c)) => {
            let mut text: Vec<u8> = Vec::new();
            text.push(99);
            text.push(108);
            text.push(97);
            text.push(115);
            text.push(115);
            text.push(40);
            let mut count = u64_text(c.field_value.len() as u64);
            text.append(&mut count);
            text.push(41);
            proof {
                assert(text@ =~= text_of(*v));
            }
            Ok(text)
        },
    }
}

} // verus!
