use vstd::prelude::*;

use async_compression::tokio::bufread::GzipDecoder;
use tokio::io::AsyncReadExt;

use crate::error::Error;
use crate::{block_len, block_size, is_valid_bgzf_header, valid_header, HEADER_LEN, EOF_BLOCK_LEN};

verus! {

#[verifier::external_type_specification]
#[verifier::external_body]
pub struct ExIoError(std::io::Error);

/// What gzip decoding makes of a complete member: its payload, or `None` where the
/// bytes are not valid gzip data.
pub uninterp spec fn gzip_decoded(member: Seq<u8>) -> Option<Seq<u8>>;

/// Relies on async_compression's `GzipDecoder` read to its end (tokio's `read_to_end`)
/// over an in-memory slice: the decoded bytes, or the decoder's error. The outcome
/// depends on the bytes alone. The read is polled in place with a no-op waker, without
/// entering any executor; a slice is always ready, so the first poll completes it.
#[verifier::external_body]
fn gunzip(member: &[u8]) -> (r: core::result::Result<Vec<u8>, std::io::Error>)
    ensures
        match r {
            Ok(v) => gzip_decoded(member@) == Some(v@),
            Err(_) => gzip_decoded(member@).is_none(),
        },
{
    let mut out: Vec<u8> = Vec::new();
    let mut decoder = GzipDecoder::new(member);
    let mut read = Box::pin(decoder.read_to_end(&mut out));
    let mut cx = std::task::Context::from_waker(std::task::Waker::noop());
    let done = loop {
        if let std::task::Poll::Ready(res) = std::future::Future::poll(read.as_mut(), &mut cx) {
            break res;
        }
    };
    drop(read);
    done.map(|_| out)
}

/// Decompresses one complete block (header, deflate payload and footer).
pub fn decompress_bgz_block(compressed_block: &[u8]) -> (r: Result<Vec<u8>, Error>)
    ensures
        match gzip_decoded(compressed_block@) {
            Some(d) => r matches Ok(v) && v@ == d,
            None => r == Err::<Vec<u8>, Error>(Error::BGZDecompress),
        },
{
    match gunzip(compressed_block) {
        Ok(v) => Ok(v),
        Err(_) => Err(Error::BGZDecompress),
    }
}

/// Whether a block of `len` bytes ends the stream, given the answer of the caller's
/// end-of-stream predicate (`None` where no predicate was supplied).
pub open spec fn ends_stream(len: nat, answer: Option<bool>) -> bool {
    match answer {
        Some(b) => b,
        None => len == 28,
    }
}

/// The result of a read once the whole block `blk` is in hand and its end-of-stream
/// classification `eof` is known.
pub open spec fn block_outcome(blk: Seq<u8>, eof: bool, r: Result<Option<Vec<u8>>, Error>) -> bool {
    if eof {
        r == Ok::<Option<Vec<u8>>, Error>(None)
    } else {
        match gzip_decoded(blk) {
            Some(d) => r matches Ok(Some(v)) && v@ == d,
            None => r == Err::<Option<Vec<u8>>, Error>(Error::BGZDecompress),
        }
    }
}

/// End-of-stream classification: the predicate's answer where there is one, else a
/// block length of 28.
pub fn is_end_of_stream(len: usize, answer: Option<bool>) -> (r: bool)
    ensures
        r == ends_stream(len as nat, answer),
{
    match answer {
        Some(b) => b,
        None => len == EOF_BLOCK_LEN,
    }
}

/// Validates a header and, where it is valid, returns the block buffer: the header
/// followed by zeros up to the announced block length, for the body to be read into.
pub fn begin_block(header: [u8; 18]) -> (r: Result<Vec<u8>, Error>)
    ensures
        valid_header(header@) ==> (r matches Ok(buf) && buf@.len() == block_len(header@)
            && buf@.subrange(0, 18) == header@),
        !valid_header(header@) ==> r == Err::<Vec<u8>, Error>(Error::BGZInvalidHeader(header)),
{
    if !is_valid_bgzf_header(&header) {
        return Err(Error::BGZInvalidHeader(header));
    }
    let len = block_size(&header);
    let mut buf: Vec<u8> = Vec::with_capacity(len);
    let mut i: usize = 0;
    while i < len
        invariant
            header@.len() == 18,
            len == block_len(header@),
            len >= 19,
            i <= len,
            buf@.len() == i,
            forall|j: int| 0 <= j < i && j < 18 ==> buf@[j] == header@[j],
        decreases len - i,
    {
        if i < HEADER_LEN {
            buf.push(header[i]);
        } else {
            buf.push(0);
        }
        i = i + 1;
    }
    assert(buf@.subrange(0, 18) =~= header@);
    Ok(buf)
}

/// Finishes a read once the whole block is in hand: the end of the stream where `eof`
/// holds, else the decompressed payload.
pub fn finish_block(block: &[u8], eof: bool) -> (r: Result<Option<Vec<u8>>, Error>)
    ensures
        block_outcome(block@, eof, r),
{
    if eof {
        return Ok(None);
    }
    match decompress_bgz_block(block) {
        Ok(v) => Ok(Some(v)),
        Err(e) => Err(e),
    }
}

/// The 18 bytes at `pos`, read as a header.
pub open spec fn header_at(data: Seq<u8>, pos: int) -> Seq<u8> {
    data.subrange(pos, pos + 18)
}

/// The whole block at `pos`, as long as the header there announces.
pub open spec fn block_at(data: Seq<u8>, pos: int) -> Seq<u8> {
    data.subrange(pos, pos + block_len(header_at(data, pos)))
}

/// Whether a whole, validly headed block stands at `pos`.
pub open spec fn block_fits(data: Seq<u8>, pos: int) -> bool {
    &&& 0 <= pos
    &&& pos + 18 <= data.len()
    &&& valid_header(header_at(data, pos))
    &&& pos + block_len(header_at(data, pos)) <= data.len()
}

/// A successful read at `pos` with no predicate: what it yields (the payload, or
/// `None` for the end of the stream) and where the next block starts. `None` where
/// the read fails.
pub open spec fn default_step(data: Seq<u8>, pos: int) -> Option<(Option<Seq<u8>>, int)> {
    if block_fits(data, pos) {
        let blk = block_at(data, pos);
        let next = pos + blk.len();
        if blk.len() == 28 {
            Some((None, next))
        } else {
            match gzip_decoded(blk) {
                Some(d) => Some((Some(d), next)),
                None => None,
            }
        }
    } else {
        None
    }
}

/// The payload of a read result as a sequence.
pub open spec fn payload_view(r: Result<Option<Vec<u8>>, Error>) -> Option<Seq<u8>> {
    match r {
        Ok(Some(v)) => Some(v@),
        _ => None,
    }
}

/// The abstract state of a [`BlockReader`]: the stream, the position of the next
/// block, and whether the end of the stream has been reported.
pub struct ReaderView {
    pub data: Seq<u8>,
    pub pos: int,
    pub ended: bool,
}

/// Reads BGZF blocks one by one from an in-memory byte stream.
pub struct BlockReader {
    data: Vec<u8>,
    pos: usize,
    ended: bool,
}

impl View for BlockReader {
    type V = ReaderView;

    closed spec fn view(&self) -> ReaderView {
        ReaderView { data: self.data@, pos: self.pos as int, ended: self.ended }
    }
}

impl BlockReader {
    /// The reader's position lies within its stream.
    pub closed spec fn wf(&self) -> bool {
        self.pos <= self.data@.len()
    }

    /// A reader positioned at the start of `data`.
    pub fn new(data: Vec<u8>) -> (r: BlockReader)
        ensures
            r.wf(),
            r@ == (ReaderView { data: data@, pos: 0, ended: false }),
    {
        BlockReader { data, pos: 0, ended: false }
    }

    /// Offset of the next block in the stream.
    pub fn position(&self) -> (r: usize)
        ensures
            r == self@.pos,
    {
        self.pos
    }

    /// Whether the end of the stream has been reported.
    pub fn is_ended(&self) -> (r: bool)
        ensures
            r == self@.ended,
    {
        self.ended
    }

    /// The `n` bytes from the current position on, or a read error where fewer remain.
    /// The position does not move.
    fn peek(&self, n: usize) -> (r: Result<Vec<u8>, Error>)
        requires
            self.wf(),
        ensures
            self.pos + n <= self.data@.len() ==> (r matches Ok(v)
                && v@ == self.data@.subrange(self.pos as int, self.pos + n)),
            self.pos + n > self.data@.len() ==> r == Err::<Vec<u8>, Error>(Error::BGZRead),
    {
        if n > self.data.len() - self.pos {
            return Err(Error::BGZRead);
        }
        let end: usize = self.pos + n;
        let mut out: Vec<u8> = Vec::with_capacity(n);
        let mut i: usize = self.pos;
        while i < end
            invariant
                end == self.pos + n,
                end <= self.data@.len(),
                self.pos <= i <= end,
                out@ == self.data@.subrange(self.pos as int, i as int),
            decreases end - i,
        {
            out.push(self.data[i]);
            i = i + 1;
            assert(out@ =~= self.data@.subrange(self.pos as int, i as int));
        }
        Ok(out)
    }

    /// Reads the next block. Returns its decompressed payload, `None` at the end of the
    /// stream, or an error. The end of the stream is the predicate's answer where one is
    /// supplied, else a block length of 28; once it has been reported, nothing more is read.
    pub fn read_bgzf_block<F: Fn(usize, &[u8]) -> bool>(&mut self, eof_check: Option<F>) -> (r: Result<Option<Vec<u8>>, Error>)
        requires
            old(self).wf(),
            eof_check matches Some(f) ==> forall|n: usize, b: &[u8]| f.requires((n, b)),
        ensures
            final(self).wf(),
            final(self)@.data == old(self)@.data,
            ({
                let d = old(self)@.data;
                let p = old(self)@.pos;
                let h = header_at(d, p);
                &&& old(self)@.ended ==> r == Ok::<Option<Vec<u8>>, Error>(None) && final(self)@ == old(self)@
                &&& !old(self)@.ended && p + 18 > d.len() ==> r == Err::<Option<Vec<u8>>, Error>(Error::BGZRead)
                &&& !old(self)@.ended && p + 18 <= d.len() && !valid_header(h) ==>
                        (r matches Err(Error::BGZInvalidHeader(a)) && a@ == h)
                &&& !old(self)@.ended && p + 18 <= d.len() && valid_header(h) && p + block_len(h) > d.len() ==>
                        r == Err::<Option<Vec<u8>>, Error>(Error::BGZRead)
                &&& !old(self)@.ended && block_fits(d, p) ==> {
                        &&& final(self)@.pos == p + block_len(h)
                        &&& final(self)@.ended == (r == Ok::<Option<Vec<u8>>, Error>(None))
                        &&& match eof_check {
                            None => block_outcome(block_at(d, p), ends_stream(block_len(h), None), r),
                            Some(f) => exists|s: &[u8], b: bool| s@ == block_at(d, p)
                                && f.ensures((block_len(h) as usize, s), b)
                                && block_outcome(block_at(d, p), b, r),
                        }
                    }
                &&& !old(self)@.ended && eof_check is None ==> match default_step(d, p) {
                        Some((o, q)) => payload_view(r) == o && r is Ok && final(self)@.pos == q
                            && final(self)@.ended == o is None,
                        None => r is Err,
                    }
            }),
    {
        if self.ended {
            return Ok(None);
        }
        let avail: usize = self.data.len() - self.pos;
        let header = match self.peek(HEADER_LEN) {
            Ok(h) => h,
            Err(e) => return Err(e),
        };
        if !is_valid_bgzf_header(header.as_slice()) {
            let mut arr: [u8; 18] = [0u8; 18];
            let mut i: usize = 0;
            while i < HEADER_LEN
                invariant
                    header@.len() == 18,
                    i <= 18,
                    forall|j: int| 0 <= j < i ==> arr@[j] == header@[j],
                decreases 18 - i,
            {
                arr[i] = header[i];
                i = i + 1;
            }
            assert(arr@ =~= header@);
            return Err(Error::BGZInvalidHeader(arr));
        }
        let len = block_size(header.as_slice());
        if len > avail {
            return Err(Error::BGZRead);
        }
        let block = match self.peek(len) {
            Ok(b) => b,
            Err(e) => return Err(e),
        };
        let ghost d = self.data@;
        let ghost p = self.pos as int;
        assert(block@ =~= block_at(d, p));
        self.pos = self.pos + len;
        let eof = match eof_check {
            Some(f) => f(len, block.as_slice()),
            None => is_end_of_stream(len, None),
        };
        let r = finish_block(block.as_slice(), eof);
        self.ended = eof;
        r
    }
}

/// A block that the reader decodes: well headed, as long as its header says, not of
/// the sentinel's length, and valid gzip data.
pub open spec fn conformant_block(b: Seq<u8>) -> bool {
    &&& b.len() >= 18
    &&& valid_header(b.subrange(0, 18))
    &&& block_len(b.subrange(0, 18)) == b.len()
    &&& b.len() != 28
    &&& gzip_decoded(b) is Some
}

/// A well-headed block of the sentinel's length.
pub open spec fn sentinel_block(b: Seq<u8>) -> bool {
    &&& b.len() == 28
    &&& valid_header(b.subrange(0, 18))
    &&& block_len(b.subrange(0, 18)) == 28
}

/// The stream made of `blocks` in order, then `last`.
pub open spec fn block_stream(blocks: Seq<Seq<u8>>, last: Seq<u8>) -> Seq<u8> {
    blocks.flatten() + last
}

/// Where block `i` of `blocks` starts in their concatenation.
pub open spec fn block_offset(blocks: Seq<Seq<u8>>, i: int) -> int
    decreases i,
{
    if i <= 0 || blocks.len() == 0 {
        0
    } else {
        blocks[0].len() + block_offset(blocks.drop_first(), i - 1)
    }
}

proof fn lemma_step_shift(pre: Seq<u8>, rest: Seq<u8>, q: int)
    requires
        0 <= q,
    ensures
        default_step(pre + rest, pre.len() + q) == match default_step(rest, q) {
            Some((o, n)) => Some((o, pre.len() + n)),
            None => None,
        },
{
    let d = pre + rest;
    let p = pre.len() + q;
    if q + 18 <= rest.len() {
        assert(header_at(d, p) =~= header_at(rest, q));
        let h = header_at(rest, q);
        if q + block_len(h) <= rest.len() {
            assert(block_at(d, p) =~= block_at(rest, q));
        }
    }
}

proof fn lemma_first_block(b: Seq<u8>, rest: Seq<u8>)
    requires
        b.len() >= 18,
        valid_header(b.subrange(0, 18)),
        block_len(b.subrange(0, 18)) == b.len(),
    ensures
        block_fits(b + rest, 0),
        block_at(b + rest, 0) == b,
{
    assert(header_at(b + rest, 0) =~= b.subrange(0, 18));
    assert(block_at(b + rest, 0) =~= b);
}

proof fn lemma_step_at(blocks: Seq<Seq<u8>>, last: Seq<u8>, i: int)
    requires
        forall|k: int| 0 <= k < blocks.len() ==> conformant_block(#[trigger] blocks[k]),
        sentinel_block(last),
        0 <= i <= blocks.len(),
    ensures
        i < blocks.len() ==> default_step(block_stream(blocks, last), block_offset(blocks, i))
            == Some((gzip_decoded(blocks[i]), block_offset(blocks, i + 1))),
        i == blocks.len() ==> default_step(block_stream(blocks, last), block_offset(blocks, i))
            == Some((None::<Seq<u8>>, block_offset(blocks, i) + 28)),
    decreases i,
{
    if blocks.len() == 0 {
        assert(block_stream(blocks, last) =~= last);
        lemma_first_block(last, Seq::empty());
        assert(last + Seq::<u8>::empty() =~= last);
    } else {
        let tail = blocks.drop_first();
        let rest = block_stream(tail, last);
        assert(block_stream(blocks, last) =~= blocks[0] + rest);
        if i == 0 {
            assert(conformant_block(blocks[0]));
            lemma_first_block(blocks[0], rest);
            assert(block_offset(blocks, 1) == blocks[0].len() + block_offset(tail, 0));
        } else {
            assert forall|k: int| 0 <= k < tail.len() implies conformant_block(#[trigger] tail[k]) by {
                assert(tail[k] == blocks[k + 1]);
            }
            lemma_step_at(tail, last, i - 1);
            lemma_step_shift(blocks[0], rest, block_offset(tail, i - 1));
            if i < blocks.len() {
                assert(tail[i - 1] == blocks[i]);
                assert(block_offset(blocks, i + 1) == blocks[0].len() + block_offset(tail, i));
            }
        }
    }
}

/// A stream of conformant blocks followed by a sentinel block is read, with no
/// predicate, block by block: each read yields the next block's payload and moves to
/// the start of the following block, and the read at the sentinel reports the end of
/// the stream.
pub proof fn lemma_sequencing(blocks: Seq<Seq<u8>>, last: Seq<u8>)
    requires
        forall|k: int| 0 <= k < blocks.len() ==> conformant_block(#[trigger] blocks[k]),
        sentinel_block(last),
    ensures
        forall|i: int| 0 <= i < blocks.len() ==>
            default_step(block_stream(blocks, last), #[trigger] block_offset(blocks, i))
                == Some((gzip_decoded(blocks[i]), block_offset(blocks, i + 1))),
        default_step(block_stream(blocks, last), block_offset(blocks, blocks.len() as int))
            == Some((None::<Seq<u8>>, block_offset(blocks, blocks.len() as int) + 28)),
{
    assert forall|i: int| 0 <= i < blocks.len() implies
        default_step(block_stream(blocks, last), #[trigger] block_offset(blocks, i))
            == Some((gzip_decoded(blocks[i]), block_offset(blocks, i + 1))) by {
        lemma_step_at(blocks, last, i);
    }
    lemma_step_at(blocks, last, blocks.len() as int);
}

/// A well-headed block, as long as its header says and not of the sentinel's length,
/// is read with no predicate as exactly what gzip decoding makes of it, and the next
/// read starts right after it.
pub proof fn lemma_decoded_block_read(blk: Seq<u8>, payload: Seq<u8>, rest: Seq<u8>)
    requires
        blk.len() >= 18,
        valid_header(blk.subrange(0, 18)),
        block_len(blk.subrange(0, 18)) == blk.len(),
        blk.len() != 28,
        gzip_decoded(blk) == Some(payload),
    ensures
        default_step(blk + rest, 0) == Some((Some(payload), blk.len() as int)),
{
    lemma_first_block(blk, rest);
}

} // verus!
