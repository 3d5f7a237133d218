use vstd::prelude::*;

pub mod error;

pub mod reader;

pub use error::Error;

verus! {

/// Length of the fixed BGZF header.
pub const HEADER_LEN: usize = 18;

/// Length of an end-of-stream sentinel block.
pub const EOF_BLOCK_LEN: usize = 28;

/// The generic end-of-stream block of the container format.
pub const BGZIP_EOF_BLOCK: [u8; 28] = [
    0x1f, 0x8b, 0x08, 0x04, 0x00, 0x00, 0x00, 0x00, 0x00, 0xff, 0x06, 0x00, 0x42, 0x43, 0x02, 0x00,
    0x1b, 0x00, 0x03, 0x00, 0x00, 0x00, 0x00, 0x00, 0x00, 0x00, 0x00, 0x00,
];

/// Bytes 16..28 of the end-of-stream block of the BAM record format.
pub const BAM_EOF_BLOCK: [u8; 12] = [
    0x1b, 0x00, 0x03, 0x00, 0x00, 0x00, 0x00, 0x00, 0x00, 0x00, 0x00, 0x00,
];

/// The generic sentinel as a sequence.
pub open spec fn bgzf_eof_seq() -> Seq<u8> {
    seq![
        0x1fu8, 0x8bu8, 0x08u8, 0x04u8, 0x00u8, 0x00u8, 0x00u8, 0x00u8, 0x00u8, 0xffu8,
        0x06u8, 0x00u8, 0x42u8, 0x43u8, 0x02u8, 0x00u8, 0x1bu8, 0x00u8, 0x03u8, 0x00u8,
        0x00u8, 0x00u8, 0x00u8, 0x00u8, 0x00u8, 0x00u8, 0x00u8, 0x00u8,
    ]
}

/// The BAM sentinel tail (block bytes 16..28) as a sequence.
pub open spec fn bam_eof_tail() -> Seq<u8> {
    bgzf_eof_seq().subrange(16, 28)
}

/// BSIZE: header bytes 16 and 17 read as a little-endian 16-bit integer.
pub open spec fn bsize(h: Seq<u8>) -> nat {
    h[16] as nat + 256 * (h[17] as nat)
}

/// Total length of the block that a header announces.
pub open spec fn block_len(h: Seq<u8>) -> nat {
    bsize(h) + 1
}

/// A well-formed BGZF header: gzip magic, the `BC` extra subfield, and BSIZE of at least 18.
pub open spec fn valid_header(h: Seq<u8>) -> bool {
    &&& h.len() == 18
    &&& h[0] == 0x1f && h[1] == 0x8b && h[2] == 0x08
    &&& h[10] == 0x06 && h[11] == 0x00
    &&& h[12] == 0x42 && h[13] == 0x43
    &&& h[14] == 0x02 && h[15] == 0x00
    &&& bsize(h) >= 18
}

/// Checks that `header` is a well-formed 18-byte BGZF header.
pub fn is_valid_bgzf_header(header: &[u8]) -> (r: bool)
    ensures
        r == valid_header(header@),
{
    if header.len() != HEADER_LEN {
        return false;
    }
    if header[0] != 0x1f || header[1] != 0x8b || header[2] != 0x08 {
        return false;
    }
    if header[10] != 0x06 || header[11] != 0x00 || header[12] != 0x42 || header[13] != 0x43
        || header[14] != 0x02 || header[15] != 0x00 {
        return false;
    }
    block_size(header) >= HEADER_LEN + 1
}

/// Total block length announced by a header: BSIZE plus one.
pub fn block_size(header: &[u8]) -> (r: usize)
    requires
        header@.len() >= 18,
    ensures
        r == block_len(header@),
{
    (header[16] as usize) + (header[17] as usize) * 256 + 1
}

/// The generic end-of-stream check: a 28-byte block equal to the container's sentinel.
pub fn is_bgzf_eof(bsize: usize, block: &[u8]) -> (r: bool)
    ensures
        r == (bsize == 28 && block@ == bgzf_eof_seq()),
{
    if bsize != EOF_BLOCK_LEN || block.len() != EOF_BLOCK_LEN {
        return false;
    }
    let mut i: usize = 0;
    while i < EOF_BLOCK_LEN
        invariant
            block@.len() == 28,
            i <= 28,
            forall|j: int| 0 <= j < i ==> block@[j] == bgzf_eof_seq()[j],
        decreases 28 - i,
    {
        if block[i] != BGZIP_EOF_BLOCK[i] {
            return false;
        }
        i = i + 1;
    }
    assert(block@ =~= bgzf_eof_seq());
    true
}

/// The BAM end-of-stream check: a 28-byte block whose bytes 16..28 equal the BAM sentinel tail.
pub fn is_bam_eof(bsize: usize, bytes: &[u8]) -> (r: bool)
    ensures
        r == (bsize == 28 && bytes@.len() >= 28 && bytes@.subrange(16, 28) == bam_eof_tail()),
{
    if bsize != EOF_BLOCK_LEN || bytes.len() < EOF_BLOCK_LEN {
        return false;
    }
    let mut i: usize = 0;
    while i < 12
        invariant
            bytes@.len() >= 28,
            i <= 12,
            forall|j: int| 0 <= j < i ==> bytes@[16 + j] == bam_eof_tail()[j],
        decreases 12 - i,
    {
        if bytes[16 + i] != BAM_EOF_BLOCK[i] {
            assert(bytes@.subrange(16, 28)[i as int] != bam_eof_tail()[i as int]);
            return false;
        }
        i = i + 1;
    }
    assert(bytes@.subrange(16, 28) =~= bam_eof_tail());
    true
}

/// Every block that the generic end-of-stream check accepts, the BAM check accepts too.
pub proof fn lemma_bgzf_eof_is_bam_eof(block: Seq<u8>)
    requires
        block == bgzf_eof_seq(),
    ensures
        block.len() >= 28 && block.subrange(16, 28) == bam_eof_tail(),
{
}

} // verus!
