//! CRC32C, from the `crc32c` crate.

use vstd::prelude::*;

verus! {

/// The Castagnoli polynomial, lowest power first.
pub const POLYNOMIAL: u32 = 0x82f6_3b78;

/// One step of the division by the polynomial.
pub open spec fn divide_bit(c: u32) -> u32 {
    if c % 2 == 0 {
        c / 2
    } else {
        (c / 2) ^ POLYNOMIAL
    }
}

/// `n` steps of the division.
pub open spec fn divide_bits(c: u32, n: nat) -> u32
    decreases n,
{
    if n == 0 {
        c
    } else {
        divide_bit(divide_bits(c, (n - 1) as nat))
    }
}

/// The remainder `c`, continued over the bytes of `data`.
pub open spec fn divide_bytes(c: u32, data: Seq<u8>) -> u32
    decreases data.len(),
{
    if data.len() == 0 {
        c
    } else {
        divide_bits(divide_bytes(c, data.drop_last()) ^ (data.last() as u32), 8)
    }
}

/// The CRC32C `crc` of what came before `data`, continued over `data`. What is
/// kept between the bytes is the remainder, inverted.
pub open spec fn crc32c_append_of(crc: u32, data: Seq<u8>) -> u32 {
    !divide_bytes(!crc, data)
}

/// The CRC32C of `data`: continued from nothing, which counts as 0.
pub open spec fn crc32c_of(data: Seq<u8>) -> u32 {
    crc32c_append_of(0, data)
}

/// Calls `crc32c::crc32c_append`, which computes the CRC-32-Castagnoli of the
/// data, starting with a previous CRC: it inverts that, divides byte by byte,
/// and inverts the remainder.
#[verifier::external_body]
pub(crate) fn crc32c_append(crc: u32, data: &[u8]) -> (r: u32)
    ensures
        r == crc32c_append_of(crc, data@),
{
    crc32c::crc32c_append(crc, data)
}

/// Calls `crc32c::crc32c`, which its documentation defines as
/// `crc32c_append(0, data)`.
#[verifier::external_body]
pub(crate) fn crc32c(data: &[u8]) -> (r: u32)
    ensures
        r == crc32c_of(data@),
{
    crc32c::crc32c(data)
}

proof fn lemma_divide_on(c: u32, a: Seq<u8>, b: Seq<u8>)
    ensures
        divide_bytes(c, a + b) == divide_bytes(divide_bytes(c, a), b),
    decreases b.len(),
{
    if b.len() == 0 {
        assert(a + b == a);
    } else {
        lemma_divide_on(c, a, b.drop_last());
        assert((a + b).drop_last() == a + b.drop_last());
    }
}

/// A CRC that is continued piece by piece is the CRC of the joined pieces, and
/// no bytes leave it as it is.
pub proof fn law_crc_continues(crc: u32, a: Seq<u8>, b: Seq<u8>)
    ensures
        crc32c_append_of(crc32c_append_of(crc, a), b) == crc32c_append_of(crc, a + b),
        crc32c_append_of(crc, Seq::empty()) == crc,
{
    lemma_divide_on(!crc, a, b);
    let d = divide_bytes(!crc, a);
    assert(!!d == d) by (bit_vector);
    assert(!!crc == crc) by (bit_vector);
}

/// The CRC that a stream reports for the bytes it carried. A transfer without
/// CRCs reports 0.
pub open spec fn stream_crc(no_crc: bool, bytes: Seq<u8>) -> u32 {
    if no_crc {
        0
    } else {
        crc32c_of(bytes)
    }
}

/// A stream that has carried nothing reports 0.
pub proof fn law_crc_of_nothing(no_crc: bool)
    ensures
        stream_crc(no_crc, Seq::empty()) == 0,
{
    law_crc_continues(0, Seq::empty(), Seq::empty());
}

/// Continues a stream's CRC over one more piece.
pub fn extend_stream_crc(no_crc: bool, crc: u32, data: &[u8]) -> (r: u32)
    ensures
        r == if no_crc {
            crc
        } else {
            crc32c_append_of(crc, data@)
        },
        forall|before: Seq<u8>|
            crc == #[trigger] stream_crc(no_crc, before) ==> r == stream_crc(
                no_crc,
                before + data@,
            ),
{
    if no_crc {
        crc
    } else {
        let r: u32 = crc32c_append(crc, data);
        proof {
            assert forall|before: Seq<u8>| crc == #[trigger] stream_crc(false, before) implies r
                == stream_crc(false, before + data@) by {
                law_crc_continues(0, before, data@);
            }
        }
        r
    }
}

/// What a stream reports is the CRC of what it carried, and 0 only where the
/// transfer has no CRCs or that CRC is 0.
pub proof fn law_streams_report_their_crc(no_crc: bool, bytes: Seq<u8>)
    ensures
        !no_crc ==> stream_crc(no_crc, bytes) == crc32c_of(bytes),
        no_crc ==> stream_crc(no_crc, bytes) == 0,
{
}

} // verus!
