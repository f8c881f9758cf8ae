//! The zlib wrapper around a DEFLATE stream: a two-byte header, the
//! compressed data, and a four-byte checksum that is skipped.

use vstd::prelude::*;
use crate::bit::{bit_at, bits_value, addressable, read_bits};
use vstd::slice::slice_subrange;
use crate::deflate;
use crate::deflate_proofs::{stored_stream, lemma_inflate_inverts_stored};
use crate::error::DecodeError;

verus! {

/// The compression method of a zlib stream: the low four bits of its first
/// byte.
pub open spec fn compression_method(stream: Seq<u8>) -> nat {
    bits_value(stream, 0, 4)
}

/// The DEFLATE data of a zlib stream: what lies between the two-byte header
/// and the four-byte checksum.
pub open spec fn payload(stream: Seq<u8>) -> Seq<u8> {
    stream.subrange(2, stream.len() - 4)
}

/// What a zlib stream decompresses to. An empty stream is `Corrupted`; a
/// method other than 8 is `UnsupportedFeature`; a stream too short for
/// header and checksum, or whose data is no DEFLATE stream, is `Corrupted`.
pub open spec fn unwrapped(stream: Seq<u8>) -> Result<Seq<u8>, DecodeError> {
    if stream.len() == 0 {
        Err(DecodeError::Corrupted)
    } else if compression_method(stream) != 8 {
        Err(DecodeError::UnsupportedFeature)
    } else if stream.len() < 6 {
        Err(DecodeError::Corrupted)
    } else {
        match deflate::inflated(payload(stream)) {
            Some(out) => Ok(out),
            None => Err(DecodeError::Corrupted),
        }
    }
}

/// The compression method is the first byte modulo 16.
pub proof fn lemma_compression_method(stream: Seq<u8>)
    requires
        stream.len() > 0,
    ensures
        compression_method(stream) == stream[0] as nat % 16,
{
    let b: u8 = stream[0];
    let b0 = bit_at(stream, 0);
    let b1 = bit_at(stream, 1);
    let b2 = bit_at(stream, 2);
    let b3 = bit_at(stream, 3);
    assert(b0 == (b as nat / 1) % 2 && b1 == (b as nat / 2) % 2 && b2 == (b as nat / 4) % 2 && b3
        == (b as nat / 8) % 2) by {
        vstd::arithmetic::power2::lemma2_to64();
    }
    assert(bits_value(stream, 0, 4) == b0 * 1 + b1 * 2 + b2 * 4 + b3 * 8) by {
        vstd::arithmetic::power2::lemma2_to64();
        reveal_with_fuel(bits_value, 5);
    }
    assert(((b / 1) % 2) * 1 + ((b / 2) % 2) * 2 + ((b / 4) % 2) * 4 + ((b / 8) % 2) * 8 == b
        % 16) by (bit_vector);
}

/// Decompresses a zlib stream. The header's method must be 8; its other
/// fields and the trailing checksum are not looked at.
pub fn inflate(compressed: &[u8]) -> (r: Result<Vec<u8>, DecodeError>)
    requires
        addressable(compressed@),
    ensures
        match unwrapped(compressed@) {
            Ok(out) => r matches Ok(v) && v@ == out,
            Err(e) => r matches Err(f) && f == e,
        },
{
    if compressed.len() == 0 {
        return Err(DecodeError::Corrupted);
    }
    let compression_method: usize = read_bits(compressed, 0, 4);
    if compression_method != 8 {
        return Err(DecodeError::UnsupportedFeature);
    }
    if compressed.len() < 6 {
        return Err(DecodeError::Corrupted);
    }
    let compressed_data_length: usize = compressed.len() - 6;
    let data = slice_subrange(compressed, 2, 2 + compressed_data_length);
    deflate::inflate(data)
}

/// A zlib stream decompresses to what its DEFLATE data decompresses to:
/// for every first byte that names method 8, every second byte and every
/// four bytes of checksum.
pub proof fn lemma_wrapped_stream(cmf: u8, flg: u8, data: Seq<u8>, checksum: Seq<u8>)
    requires
        cmf % 16 == 8,
        checksum.len() == 4,
    ensures
        unwrapped(seq![cmf, flg] + data + checksum) == match deflate::inflated(data) {
            Some(out) => Ok::<Seq<u8>, DecodeError>(out),
            None => Err::<Seq<u8>, DecodeError>(DecodeError::Corrupted),
        },
{
    let stream = seq![cmf, flg] + data + checksum;
    lemma_compression_method(stream);
    assert(stream[0] == cmf);
    assert(payload(stream) =~= data);
}

/// Every sequence of bytes comes out again: a zlib stream that holds `v`
/// in stored blocks, with any four bytes of checksum, decompresses to `v`.
pub proof fn lemma_inflate_inverts_stored_zlib(v: Seq<u8>, checksum: Seq<u8>)
    requires
        checksum.len() == 4,
    ensures
        unwrapped(seq![0x78u8, 0x01u8] + stored_stream(v) + checksum) == Ok::<
            Seq<u8>,
            DecodeError,
        >(v),
{
    lemma_inflate_inverts_stored(v);
    lemma_wrapped_stream(0x78, 0x01, stored_stream(v), checksum);
}

} // verus!
