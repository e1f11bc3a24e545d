//! The trusted boundary of the crate.
//!
//! Every item here states, without proof, what a function of another crate
//! or of the standard library does. The rest of the crate is verified
//! against these statements, so each of them is kept as small as the code
//! that it describes allows.

use vstd::prelude::*;
use vstd::std_specs::hash::obeys_key_model;
use byteorder::BigEndian;
use byteorder::ByteOrder;
use fnv::FnvHashMap;
use itertools::Itertools;
use std::hash::Hash;
use std::sync::Arc;
use crate::fragment::Fragment;
use crate::udp_message::{u32_from_be_bytes, u32_to_be_bytes};

verus! {

/// The CRC-32 checksum (IEEE polynomial, reflected) of a run of bytes, as
/// `crc::crc32::checksum_ieee` computes it. The value is a function of the
/// bytes alone; nothing else is known of it here.
pub uninterp spec fn crc32_ieee(bytes: Seq<u8>) -> u32;

/// `crc::crc32::checksum_ieee` folds the bytes through a fixed table and
/// returns the final 32-bit state: the result depends on nothing but the
/// bytes, and the call never fails.
pub assume_specification[ crc::crc32::checksum_ieee ](bytes: &[u8]) -> (sum: u32)
    ensures
        sum == crc32_ieee(bytes@),
;

/// `byteorder::BigEndian::read_u32` reads the first four bytes of `buf` as a
/// big-endian number. It panics on a shorter buffer, so that input is left
/// out.
#[verifier::external_body]
pub(crate) fn read_u32_be(buf: &[u8]) -> (n: u32)
    requires
        buf@.len() >= 4,
    ensures
        n == u32_from_be_bytes(buf@.subrange(0, 4)),
{
    BigEndian::read_u32(buf)
}

/// `byteorder::BigEndian::write_u32` overwrites the first four bytes of
/// `buf` with `n` in big-endian order and leaves every later byte as it
/// was. It panics on a shorter buffer, so that input is left out.
#[verifier::external_body]
pub(crate) fn write_u32_be(buf: &mut [u8], n: u32)
    requires
        old(buf)@.len() >= 4,
    ensures
        final(buf)@ == u32_to_be_bytes(n) + old(buf)@.subrange(4, old(buf)@.len() as int),
{
    BigEndian::write_u32(buf, n)
}

/// `Box::<[u8]>::from(&[u8])` of the standard library: the box owns a copy
/// of the bytes of the slice.
#[verifier::external_body]
pub(crate) fn box_from_slice(bytes: &[u8]) -> (boxed: Box<[u8]>)
    ensures
        boxed@ == bytes@,
{
    Box::from(bytes)
}

/// `Arc::<[u8]>::from(&[u8])` of the standard library: the new allocation
/// holds a copy of the bytes of the slice.
#[verifier::external_body]
pub(crate) fn arc_from_slice(bytes: &[u8]) -> (shared: Arc<[u8]>)
    ensures
        (*shared)@ == bytes@,
{
    Arc::from(bytes)
}

/// `Arc::clone` of the standard library: the clone points to the same
/// allocation, hence to the same bytes.
#[verifier::external_body]
pub(crate) fn arc_clone(shared: &Arc<[u8]>) -> (other: Arc<[u8]>)
    ensures
        other == *shared,
{
    Arc::clone(shared)
}

/// `Vec::into_boxed_slice` of the standard library: the box holds the
/// elements of the vector, in order.
#[verifier::external_body]
pub(crate) fn vec_into_boxed_slice(bytes: Vec<u8>) -> (boxed: Box<[u8]>)
    ensures
        boxed@ == bytes@,
{
    bytes.into_boxed_slice()
}

/// The hasher of the `fnv` crate. Its state is one 64-bit number that
/// starts at a fixed value and is folded over the bytes written to it, so
/// equal keys always hash alike.
#[verifier::external_type_specification]
#[verifier::external_body]
pub struct ExFnvHasher(fnv::FnvHasher);

/// The standard library's builder of hashers that start from their default
/// state; `fnv::FnvHashMap` is a `HashMap` with this builder over
/// `fnv::FnvHasher`.
#[verifier::external_type_specification]
#[verifier::external_body]
#[verifier::reject_recursive_types(H)]
pub struct ExBuildHasherDefault<H>(std::hash::BuildHasherDefault<H>);

/// `HashMap::len` on a map hashed by FNV: the number of keys.
#[verifier::external_body]
pub(crate) fn map_len<K, V>(m: &FnvHashMap<K, V>) -> (n: usize)
    requires
        obeys_key_model::<K>(),
    ensures
        n == m@.len(),
{
    m.len()
}

/// `HashMap::get` on a map hashed by FNV: the value stored under the key,
/// if there is one.
#[verifier::external_body]
pub(crate) fn map_get<'a, K: Eq + Hash, V>(m: &'a FnvHashMap<K, V>, k: &K) -> (value: Option<&'a V>)
    requires
        obeys_key_model::<K>(),
    ensures
        value is Some <==> m@.contains_key(*k),
        value matches Some(v) ==> *v == m@[*k],
{
    m.get(k)
}

/// `HashMap::insert` on a map hashed by FNV: the key maps to the new
/// value, every other key is as before, and the value that the key had
/// is returned.
#[verifier::external_body]
pub(crate) fn map_insert<K: Eq + Hash, V>(m: &mut FnvHashMap<K, V>, k: K, v: V) -> (previous:
    Option<V>)
    requires
        obeys_key_model::<K>(),
    ensures
        final(m)@ == old(m)@.insert(k, v),
        previous is Some <==> old(m)@.contains_key(k),
        previous matches Some(p) ==> p == old(m)@[k],
{
    m.insert(k, v)
}

/// `HashMap::remove` on a map hashed by FNV: the key is gone, every other
/// key is as before, and the value that the key had is returned.
#[verifier::external_body]
pub(crate) fn map_remove<K: Eq + Hash, V>(m: &mut FnvHashMap<K, V>, k: &K) -> (previous: Option<V>)
    requires
        obeys_key_model::<K>(),
    ensures
        final(m)@ == old(m)@.remove(*k),
        previous is Some <==> old(m)@.contains_key(*k),
        previous matches Some(p) ==> p == old(m)@[*k],
{
    m.remove(k)
}

/// `itertools::Itertools::all_equal` over the fragment totals: true when no
/// two of them differ, hence also when there is none.
#[verifier::external_body]
pub(crate) fn all_equal_frag_total<T>(fragments: &[Fragment<T>]) -> (equal: bool)
    ensures
        equal == (forall|i: int, j: int|
            #![trigger fragments@[i], fragments@[j]]
            0 <= i < fragments@.len() && 0 <= j < fragments@.len() ==> fragments@[i].frag_total
                == fragments@[j].frag_total),
{
    fragments.iter().map(|f| f.frag_total).all_equal()
}

/// The error type of the standard library's input and output. The library
/// carries such a value and never looks into it.
#[verifier::external_type_specification]
#[verifier::external_body]
pub struct ExIoError(std::io::Error);

} // verus!
