use vstd::prelude::*;
use vstd::slice::slice_subrange;
use crc::crc32::checksum_ieee;
use crate::consts::{CRC32_SIZE, FRAG_HEADER_SIZE};
use crate::fragment::{Fragment, FragmentView};
use crate::misc::{AsBytes, StrippedBoxedSlice};
use crate::trusted::{crc32_ieee, read_u32_be, vec_into_boxed_slice, write_u32_be};

verus! {

/// The four bytes of `n`, most significant first.
pub open spec fn u32_to_be_bytes(n: u32) -> Seq<u8> {
    seq![
        (n / 0x100_0000) as u8,
        (n / 0x1_0000 % 0x100) as u8,
        (n / 0x100 % 0x100) as u8,
        (n % 0x100) as u8,
    ]
}

/// The number whose four bytes, most significant first, are `bytes`.
pub open spec fn u32_from_be_bytes(bytes: Seq<u8>) -> u32
    recommends
        bytes.len() == 4,
{
    (bytes[0] * 0x100_0000 + bytes[1] * 0x1_0000 + bytes[2] * 0x100 + bytes[3]) as u32
}

/// Reading back the bytes of a number gives the number.
pub proof fn lemma_u32_from_to_be_bytes(n: u32)
    ensures
        u32_to_be_bytes(n).len() == 4,
        u32_from_be_bytes(u32_to_be_bytes(n)) == n,
{
    let b0 = n / 0x100_0000;
    let b1 = n / 0x1_0000 % 0x100;
    let b2 = n / 0x100 % 0x100;
    let b3 = n % 0x100;
    assert(n == (n / 0x100) * 0x100 + b3);
    assert(n / 0x100 == (n / 0x1_0000) * 0x100 + b2);
    assert(n / 0x1_0000 == b0 * 0x100 + b1);
    assert(n == b0 * 0x100_0000 + b1 * 0x1_0000 + b2 * 0x100 + b3);
}

proof fn lemma_be_digits(b0: int, b1: int, b2: int, b3: int, n: int)
    requires
        0 <= b0 < 0x100,
        0 <= b1 < 0x100,
        0 <= b2 < 0x100,
        0 <= b3 < 0x100,
        n == b0 * 0x100_0000 + b1 * 0x1_0000 + b2 * 0x100 + b3,
    ensures
        0 <= n <= 0xffff_ffff,
        n / 0x100_0000 == b0,
        n / 0x1_0000 % 0x100 == b1,
        n / 0x100 % 0x100 == b2,
        n % 0x100 == b3,
{
    let high = b0 * 0x100 + b1;
    let upper = high * 0x100 + b2;
    assert(n == upper * 0x100 + b3);
    assert(n / 0x100 == upper);
    assert(upper / 0x100 == high);
    assert(high / 0x100 == b0);
    assert(n / 0x1_0000 == high);
}

/// Writing out the number read from four bytes gives the four bytes.
pub proof fn lemma_u32_to_from_be_bytes(bytes: Seq<u8>)
    requires
        bytes.len() == 4,
    ensures
        u32_to_be_bytes(u32_from_be_bytes(bytes)) == bytes,
{
    let n = bytes[0] * 0x100_0000 + bytes[1] * 0x1_0000 + bytes[2] * 0x100 + bytes[3];
    lemma_be_digits(bytes[0] as int, bytes[1] as int, bytes[2] as int, bytes[3] as int, n);
    assert(u32_from_be_bytes(bytes) == n);
    assert(u32_to_be_bytes(u32_from_be_bytes(bytes)) =~= bytes);
}

/// Why a datagram was not accepted as a fragment.
#[derive(Copy, Clone, Debug, PartialEq, Eq, Structural)]
pub enum UdpMessageError {
    /// The datagram is shorter than checksum and header together.
    NotBigEnough,
    /// The checksum in the datagram is not the checksum of the rest of it.
    InvalidCrc,
    /// The fragment id is larger than the fragment total.
    InvalidFragInfo,
    /// The fragment total is larger than 63.
    FragTotalTooLarge,
}

/// The bytes a fragment travels as: checksum, sequence id, fragment id,
/// fragment total, payload. The checksum covers everything behind it.
pub open spec fn spec_encode(f: FragmentView) -> Seq<u8> {
    let covered = u32_to_be_bytes(f.seq_id) + seq![f.frag_id, f.frag_total] + f.data;
    u32_to_be_bytes(crc32_ieee(covered)) + covered
}

/// The header that a datagram carries, or the first reason, in the order
/// length, checksum, fragment total, fragment id, why it carries none.
pub open spec fn spec_check_header(b: Seq<u8>) -> Result<(u32, u8, u8), UdpMessageError> {
    if b.len() < 10 {
        Err(UdpMessageError::NotBigEnough)
    } else if u32_from_be_bytes(b.subrange(0, 4)) != crc32_ieee(b.subrange(4, b.len() as int)) {
        Err(UdpMessageError::InvalidCrc)
    } else if b[9] >= 64 {
        Err(UdpMessageError::FragTotalTooLarge)
    } else if b[8] > b[9] {
        Err(UdpMessageError::InvalidFragInfo)
    } else {
        Ok((u32_from_be_bytes(b.subrange(4, 8)), b[8], b[9]))
    }
}

/// The fragment that a datagram carries: its header and, as payload,
/// everything behind the tenth byte.
pub open spec fn spec_decode(b: Seq<u8>) -> Result<FragmentView, UdpMessageError> {
    match spec_check_header(b) {
        Ok((seq_id, frag_id, frag_total)) => Ok(
            FragmentView { seq_id, frag_id, frag_total, data: b.subrange(10, b.len() as int) },
        ),
        Err(e) => Err(e),
    }
}

/// A datagram in its wire form.
#[derive(Debug)]
pub struct UdpMessage<B> {
    buffer: B,
}

impl<B: AsBytes> View for UdpMessage<B> {
    type V = Seq<u8>;

    closed spec fn view(&self) -> Seq<u8> {
        self.buffer.bytes()
    }
}

impl<B: AsBytes> UdpMessage<B> {
    /// Validates a datagram and reads its header: sequence id, fragment id
    /// and fragment total.
    pub fn check_header(udp_message: &[u8]) -> (header: Result<(u32, u8, u8), UdpMessageError>)
        ensures
            header == spec_check_header(udp_message@),
    {
        let buffer = udp_message;
        if buffer.len() < 10 {
            return Err(UdpMessageError::NotBigEnough);
        }
        let message_crc32: u32 = read_u32_be(slice_subrange(buffer, 0, 4));
        let seq_id: u32 = read_u32_be(slice_subrange(buffer, 4, 8));
        let frag_id: u8 = buffer[8];
        let frag_total: u8 = buffer[9];
        let computed_crc32: u32 = checksum_ieee(slice_subrange(buffer, 4, buffer.len()));
        proof {
            assert(buffer@.subrange(0, 4).subrange(0, 4) =~= buffer@.subrange(0, 4));
            assert(buffer@.subrange(4, 8).subrange(0, 4) =~= buffer@.subrange(4, 8));
        }
        if computed_crc32 != message_crc32 {
            return Err(UdpMessageError::InvalidCrc);
        }
        if frag_total >= 64 {
            return Err(UdpMessageError::FragTotalTooLarge);
        }
        // frag_total counts from zero: a fragment whose id equals it is the last one.
        if frag_id > frag_total {
            return Err(UdpMessageError::InvalidFragInfo);
        }
        Ok((seq_id, frag_id, frag_total))
    }

    /// Takes `b` as a datagram, unchecked.
    pub fn new(b: B) -> (m: UdpMessage<B>)
        ensures
            m@ == b.bytes(),
    {
        UdpMessage { buffer: b }
    }

    pub fn as_bytes(&self) -> (bytes: &[u8])
        ensures
            bytes@ == self@,
    {
        self.buffer.as_bytes()
    }
}

impl UdpMessage<Box<[u8]>> {
    /// Encodes a fragment.
    pub fn from<T: AsBytes>(f: &Fragment<T>) -> (m: UdpMessage<Box<[u8]>>)
        ensures
            m@ == spec_encode(f@),
    {
        let mut bytes_mut: Vec<u8> = vec![0u8; CRC32_SIZE + FRAG_HEADER_SIZE];
        let (_, header) = bytes_mut.as_mut_slice().split_at_mut(4);
        write_u32_be(header, f.seq_id);
        bytes_mut.set(8, f.frag_id);
        bytes_mut.set(9, f.frag_total);
        bytes_mut.extend_from_slice(f.data.as_bytes());
        let generated_crc: u32 = checksum_ieee(
            slice_subrange(bytes_mut.as_slice(), 4, bytes_mut.len()),
        );
        let ghost covered = bytes_mut@.subrange(4, bytes_mut@.len() as int);
        proof {
            assert(covered =~= u32_to_be_bytes(f.seq_id) + seq![f.frag_id, f.frag_total]
                + f@.data);
        }
        write_u32_be(bytes_mut.as_mut_slice(), generated_crc);
        proof {
            assert(bytes_mut@ =~= spec_encode(f@));
        }
        UdpMessage { buffer: vec_into_boxed_slice(bytes_mut) }
    }

    /// Decodes the datagram. The fragment keeps the buffer and presents
    /// the payload behind the header: no byte is copied.
    pub fn into_fragment(self) -> (r: Result<Fragment<StrippedBoxedSlice<u8>>, UdpMessageError>)
        ensures
            match r {
                Ok(f) => spec_decode(self@) == Ok::<FragmentView, UdpMessageError>(f@),
                Err(e) => spec_decode(self@) == Err::<FragmentView, UdpMessageError>(e),
            },
    {
        let (seq_id, frag_id, frag_total) = Self::check_header(self.buffer.as_bytes())?;
        Ok(Fragment { seq_id, frag_id, frag_total, data: StrippedBoxedSlice::new(self.buffer, 10) })
    }
}

impl<'a> UdpMessage<&'a [u8]> {
    /// Decodes the datagram. The fragment borrows its payload from it.
    pub fn into_fragment(self) -> (r: Result<Fragment<&'a [u8]>, UdpMessageError>)
        ensures
            match r {
                Ok(f) => spec_decode(self@) == Ok::<FragmentView, UdpMessageError>(f@),
                Err(e) => spec_decode(self@) == Err::<FragmentView, UdpMessageError>(e),
            },
    {
        let (seq_id, frag_id, frag_total) = Self::check_header(self.buffer)?;
        Ok(Fragment { seq_id, frag_id, frag_total, data: slice_subrange(self.buffer, 10, self.buffer.len()) })
    }
}

/// Decoding what was encoded gives the fragment back, whenever its header
/// is valid.
pub proof fn lemma_decode_encode(f: FragmentView)
    requires
        f.wf(),
    ensures
        spec_decode(spec_encode(f)) == Ok::<FragmentView, UdpMessageError>(f),
{
    let covered = u32_to_be_bytes(f.seq_id) + seq![f.frag_id, f.frag_total] + f.data;
    let b = spec_encode(f);
    lemma_u32_from_to_be_bytes(f.seq_id);
    lemma_u32_from_to_be_bytes(crc32_ieee(covered));
    assert(b.subrange(0, 4) =~= u32_to_be_bytes(crc32_ieee(covered)));
    assert(b.subrange(4, b.len() as int) =~= covered);
    assert(b.subrange(4, 8) =~= u32_to_be_bytes(f.seq_id));
    assert(b.subrange(10, b.len() as int) =~= f.data);
}

/// A datagram that differs from an encoded fragment in the checksum field,
/// and nowhere else, is rejected for its checksum.
pub proof fn lemma_changed_checksum_field_rejected(f: FragmentView, b: Seq<u8>)
    requires
        b.len() == spec_encode(f).len(),
        b.subrange(4, b.len() as int) == spec_encode(f).subrange(4, b.len() as int),
        b.subrange(0, 4) != spec_encode(f).subrange(0, 4),
    ensures
        spec_decode(b) == Err::<FragmentView, UdpMessageError>(UdpMessageError::InvalidCrc),
{
    let covered = u32_to_be_bytes(f.seq_id) + seq![f.frag_id, f.frag_total] + f.data;
    let e = spec_encode(f);
    assert(e.subrange(0, 4) =~= u32_to_be_bytes(crc32_ieee(covered)));
    assert(e.subrange(4, e.len() as int) =~= covered);
    if u32_from_be_bytes(b.subrange(0, 4)) == crc32_ieee(covered) {
        lemma_u32_to_from_be_bytes(b.subrange(0, 4));
    }
}

/// A datagram that agrees with an encoded fragment in length and in the
/// checksum field is rejected for its checksum exactly when the checksum of
/// what follows the field has changed.
pub proof fn lemma_changed_body_rejected_iff_checksum_differs(f: FragmentView, b: Seq<u8>)
    requires
        b.len() == spec_encode(f).len(),
        b.subrange(0, 4) == spec_encode(f).subrange(0, 4),
    ensures
        spec_decode(b) == Err::<FragmentView, UdpMessageError>(UdpMessageError::InvalidCrc)
            <==> crc32_ieee(b.subrange(4, b.len() as int)) != crc32_ieee(
            spec_encode(f).subrange(4, b.len() as int),
        ),
{
    let covered = u32_to_be_bytes(f.seq_id) + seq![f.frag_id, f.frag_total] + f.data;
    let e = spec_encode(f);
    lemma_u32_from_to_be_bytes(crc32_ieee(covered));
    assert(e.subrange(0, 4) =~= u32_to_be_bytes(crc32_ieee(covered)));
    assert(e.subrange(4, e.len() as int) =~= covered);
}

} // verus!
