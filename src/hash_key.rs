//! Keys for [`crate::LinkedHashMap`]: a key's hash and its equality are
//! functions of its view, so equal keys always hash identically.
use std::collections::hash_map::DefaultHasher;
use std::hash::Hasher;
use vstd::bytes::{spec_u32_to_le_bytes, spec_u64_to_le_bytes, u32_to_le_bytes, u64_to_le_bytes};
use vstd::prelude::*;
use vstd::std_specs::hash::DefaultHasherAdditionalSpecFns;
use vstd::string::StringSliceAdditionalSpecFns;
use vstd::utf8::{encode_utf8, encode_utf8_decode_utf8};

verus! {

/// A type that can serve as a key of [`crate::LinkedHashMap`].
pub trait HashKey: View + Sized {
    /// The hash of any key whose view is `k`.
    spec fn spec_hash(k: Self::V) -> u64;

    /// Computes the key's hash.
    fn hash_code(&self) -> (r: u64)
        ensures
            r == Self::spec_hash(self@),
    ;

    /// Compares two keys; they are equal exactly when their views are.
    fn key_eq(&self, other: &Self) -> (r: bool)
        ensures
            r == (self@ == other@),
    ;
}

/// The digest that `DefaultHasher` gives after one write of `bytes`.
pub open spec fn digest_of(bytes: Seq<u8>) -> u64 {
    DefaultHasher::spec_finish(Seq::empty().push(bytes))
}

/// Feeds `bytes` to a fresh `DefaultHasher` and returns its digest.
fn digest(bytes: &[u8]) -> (r: u64)
    ensures
        r == digest_of(bytes@),
{
    let mut h = DefaultHasher::new();
    h.write(bytes);
    h.finish()
}

/// Compares two byte slices element by element.
fn bytes_eq(a: &[u8], b: &[u8]) -> (r: bool)
    ensures
        r == (a@ == b@),
{
    if a.len() != b.len() {
        return false;
    }
    let mut i: usize = 0;
    while i < a.len()
        invariant
            a@.len() == b@.len(),
            0 <= i <= a@.len(),
            forall|j: int| 0 <= j < i ==> a@[j] == b@[j],
        decreases a@.len() - i,
    {
        if a[i] != b[i] {
            return false;
        }
        i = i + 1;
    }
    assert(a@ =~= b@);
    true
}

/// Two character sequences with the same UTF-8 encoding are equal.
proof fn lemma_utf8_injective(x: Seq<char>, y: Seq<char>)
    requires
        encode_utf8(x) == encode_utf8(y),
    ensures
        x == y,
{
    encode_utf8_decode_utf8(x);
    encode_utf8_decode_utf8(y);
}

/// Compares two strings by their UTF-8 bytes.
fn str_eq(a: &str, b: &str) -> (r: bool)
    ensures
        r == (a@ == b@),
{
    let r = bytes_eq(a.as_bytes(), b.as_bytes());
    proof {
        if r {
            lemma_utf8_injective(a@, b@);
        }
    }
    r
}

impl<'a> HashKey for &'a str {
    open spec fn spec_hash(k: Seq<char>) -> u64 {
        digest_of(encode_utf8(k))
    }

    fn hash_code(&self) -> (r: u64) {
        digest((*self).as_bytes())
    }

    fn key_eq(&self, other: &Self) -> (r: bool) {
        str_eq(*self, *other)
    }
}

impl HashKey for String {
    open spec fn spec_hash(k: Seq<char>) -> u64 {
        digest_of(encode_utf8(k))
    }

    fn hash_code(&self) -> (r: u64) {
        digest(self.as_str().as_bytes())
    }

    fn key_eq(&self, other: &Self) -> (r: bool) {
        *self == *other
    }
}

impl HashKey for u64 {
    open spec fn spec_hash(k: u64) -> u64 {
        digest_of(spec_u64_to_le_bytes(k))
    }

    fn hash_code(&self) -> (r: u64) {
        let bytes = u64_to_le_bytes(*self);
        digest(bytes.as_slice())
    }

    fn key_eq(&self, other: &Self) -> (r: bool) {
        *self == *other
    }
}

impl HashKey for usize {
    open spec fn spec_hash(k: usize) -> u64 {
        digest_of(spec_u64_to_le_bytes(k as u64))
    }

    fn hash_code(&self) -> (r: u64) {
        let bytes = u64_to_le_bytes(*self as u64);
        digest(bytes.as_slice())
    }

    fn key_eq(&self, other: &Self) -> (r: bool) {
        *self == *other
    }
}

impl HashKey for u32 {
    open spec fn spec_hash(k: u32) -> u64 {
        digest_of(spec_u32_to_le_bytes(k))
    }

    fn hash_code(&self) -> (r: u64) {
        let bytes = u32_to_le_bytes(*self);
        digest(bytes.as_slice())
    }

    fn key_eq(&self, other: &Self) -> (r: bool) {
        *self == *other
    }
}

impl HashKey for i32 {
    open spec fn spec_hash(k: i32) -> u64 {
        digest_of(spec_u32_to_le_bytes(k as u32))
    }

    fn hash_code(&self) -> (r: u64) {
        let bytes = u32_to_le_bytes(*self as u32);
        digest(bytes.as_slice())
    }

    fn key_eq(&self, other: &Self) -> (r: bool) {
        *self == *other
    }
}

} // verus!
