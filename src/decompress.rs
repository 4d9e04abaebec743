//! The block decompressor: a pull-based byte stream over a sequence of
//! length-prefixed blocks, each either stored verbatim or zlib-compressed.

use std::io::Read;
use vstd::prelude::*;

use crate::bytes::{le32, read_le32};
use crate::FormatError;

verus! {

/// Size of one decoded block, and the largest compressed length a block may declare.
pub const BLOCK_SIZE: usize = 0x10000;

/// What `c` decodes to when it is exactly one complete zlib stream (header,
/// deflate data and Adler-32 trailer, nothing after it); `None` otherwise.
pub uninterp spec fn zlib_decoded(c: Seq<u8>) -> Option<Seq<u8>>;

/// Relies on flate2's `bufread::ZlibDecoder` over `input`: `read_exact` fills
/// `out` with the first decoded bytes, then one more `read` into a one-byte
/// probe returns 0 only at the end of the stream, and `total_in` counts the
/// input bytes the stream used. A decoder error gives `None`.
#[verifier::external_body]
fn zlib_fill(input: &[u8], out: &mut Vec<u8>) -> (r: Option<(usize, u64)>)
    ensures
        final(out)@.len() == old(out)@.len(),
        r matches Some((probe, used)) && probe == 0 && used == input@.len() ==> zlib_decoded(
            input@,
        ) == Some(final(out)@),
        (zlib_decoded(input@) matches Some(d) && d.len() == old(out)@.len()) ==> r == Some(
            (0usize, input@.len() as u64),
        ),
{
    let mut decoder = flate2::bufread::ZlibDecoder::new(input);
    if decoder.read_exact(out.as_mut_slice()).is_err() {
        return None;
    }
    let mut probe = [0u8; 1];
    match decoder.read(&mut probe) {
        Ok(n) => Some((n, decoder.total_in())),
        Err(_) => None,
    }
}

/// The decoded content of a block whose compressed bytes are `c`: a block of
/// exactly `BLOCK_SIZE` bytes is stored verbatim, any shorter one must be a
/// zlib stream that inflates to exactly `BLOCK_SIZE` bytes.
pub open spec fn block_payload(c: Seq<u8>) -> Option<Seq<u8>> {
    if c.len() == BLOCK_SIZE {
        Some(c)
    } else {
        match zlib_decoded(c) {
            Some(d) => if d.len() == BLOCK_SIZE {
                Some(d)
            } else {
                None
            },
            None => None,
        }
    }
}

/// The block framed at `pos` of `raw`: its decoded content and the position after it.
pub open spec fn block_at(raw: Seq<u8>, pos: int) -> Option<(Seq<u8>, int)> {
    if 0 <= pos && pos + 4 <= raw.len() {
        let n = le32(raw, pos);
        if n <= BLOCK_SIZE && pos + 4 + n <= raw.len() {
            match block_payload(raw.subrange(pos + 4, pos + 4 + n)) {
                Some(d) => Some((d, pos + 4 + n)),
                None => None,
            }
        } else {
            None
        }
    } else {
        None
    }
}

/// The first `k` blocks framed from `pos` on: their decoded contents joined,
/// and the position after the last of them.
pub open spec fn blocks(raw: Seq<u8>, pos: int, k: nat) -> Option<(Seq<u8>, int)>
    decreases k,
{
    if k == 0 {
        Some((Seq::empty(), pos))
    } else {
        match blocks(raw, pos, (k - 1) as nat) {
            Some((d, p)) => match block_at(raw, p) {
                Some((b, q)) => Some((d + b, q)),
                None => None,
            },
            None => None,
        }
    }
}

/// The number of blocks that carry `size` decoded bytes.
pub open spec fn block_count(size: nat) -> nat {
    ((size + (BLOCK_SIZE - 1)) / (BLOCK_SIZE as int)) as nat
}

/// The logical stream of `size` bytes framed from `pos` on, and the position
/// after its last block; `None` where a block is missing or malformed.
pub open spec fn decoded(raw: Seq<u8>, pos: int, size: nat) -> Option<(Seq<u8>, int)> {
    match blocks(raw, pos, block_count(size)) {
        Some((d, p)) => Some((d.take(size as int), p)),
        None => None,
    }
}

/// Each successful block adds exactly `BLOCK_SIZE` bytes.
proof fn lemma_blocks_len(raw: Seq<u8>, pos: int, k: nat)
    ensures
        blocks(raw, pos, k) matches Some((d, p)) ==> d.len() == k * BLOCK_SIZE && pos <= p,
    decreases k,
{
    if k > 0 {
        lemma_blocks_len(raw, pos, (k - 1) as nat);
    }
}

/// Once a block is missing, every longer run of blocks is missing too; while
/// they exist, a shorter run is a prefix of a longer one.
proof fn lemma_blocks_prefix(raw: Seq<u8>, pos: int, j: nat, k: nat)
    requires
        j <= k,
    ensures
        blocks(raw, pos, j) is None ==> blocks(raw, pos, k) is None,
        blocks(raw, pos, k) matches Some((dk, pk)) ==> (blocks(raw, pos, j) matches Some((dj, pj))
            && dj.len() <= dk.len() && dk.take(dj.len() as int) == dj),
    decreases k - j,
{
    if j < k {
        lemma_blocks_prefix(raw, pos, j, (k - 1) as nat);
        if let Some((dk, pk)) = blocks(raw, pos, k) {
            let (dm, pm) = blocks(raw, pos, (k - 1) as nat).unwrap();
            let (dj, pj) = blocks(raw, pos, j).unwrap();
            assert(dk.take(dm.len() as int) =~= dm);
            assert(dk.take(dj.len() as int) =~= dm.take(dj.len() as int));
        }
    }
}

/// The decoded stream holds exactly as many bytes as were declared.
pub proof fn lemma_decoded_len(raw: Seq<u8>, pos: int, size: nat)
    ensures
        decoded(raw, pos, size) matches Some((d, p)) ==> d.len() == size,
{
    lemma_blocks_len(raw, pos, block_count(size));
    assert(block_count(size) * BLOCK_SIZE >= size) by (nonlinear_arith)
        requires
            block_count(size) == ((size + (BLOCK_SIZE - 1)) / (BLOCK_SIZE as int)) as nat,
    ;
}

/// Decodes the block whose compressed bytes are `src[body..body + n]` into `out`.
fn decode_block(src: &[u8], body: usize, n: usize, out: &mut Vec<u8>) -> (ok: bool)
    requires
        body + n <= src@.len(),
        n <= BLOCK_SIZE,
        old(out)@.len() == BLOCK_SIZE,
    ensures
        final(out)@.len() == BLOCK_SIZE,
        ok <==> block_payload(src@.subrange(body as int, body + n)) is Some,
        ok ==> block_payload(src@.subrange(body as int, body + n)) == Some(final(out)@),
{
    let ghost c = src@.subrange(body as int, body + n);
    let _len = src.len();
    if n == BLOCK_SIZE {
        let mut i: usize = 0;
        while i < n
            invariant
                i <= n == BLOCK_SIZE,
                body + n <= src@.len() == _len,
                out@.len() == BLOCK_SIZE,
                forall|j: int| 0 <= j < i ==> out@[j] == src@[body + j],
            decreases n - i,
        {
            out.set(i, src[body + i]);
            i = i + 1;
        }
        assert(out@ =~= c);
        true
    } else {
        let input = &src[body..body + n];
        assert(input@ =~= c);
        match zlib_fill(input, out) {
            Some((probe, used)) => probe == 0 && used == n as u64,
            None => false,
        }
    }
}

/// A streaming reader of the logical bytes framed in `src` from `start` on.
pub struct Decompressor {
    src: Vec<u8>,
    pos: usize,
    buf: Vec<u8>,
    scratch: Vec<u8>,
    buf_pos: usize,
    buf_end: usize,
    eof: bool,
    blocks_decompressed: u64,
    uncompressed_size: u64,
    produced: u64,
    start: Ghost<int>,
    emitted: Ghost<Seq<u8>>,
}

impl Decompressor {
    /// The raw bytes the blocks are read from.
    pub closed spec fn source(&self) -> Seq<u8> {
        self.src@
    }

    /// Where the first block starts in `source()`.
    pub closed spec fn start(&self) -> int {
        self.start@
    }

    /// The declared length of the logical stream.
    pub closed spec fn size(&self) -> nat {
        self.uncompressed_size as nat
    }

    /// The bytes handed out by `read` so far.
    pub closed spec fn emitted(&self) -> Seq<u8> {
        self.emitted@
    }

    /// Whether the next non-empty `read` has to take a new block from the raw
    /// bytes: every block read so far is drained and the stream is not over.
    pub open spec fn at_block_boundary(&self) -> bool {
        self.emitted().len() % (BLOCK_SIZE as nat) == 0 && self.emitted().len() < self.size()
    }

    /// How many bytes the block that holds the next byte still has to give.
    pub open spec fn block_left(&self) -> int {
        let e = self.emitted().len() as int;
        let end = (e / (BLOCK_SIZE as int) + 1) * BLOCK_SIZE;
        (if end < self.size() {
            end
        } else {
            self.size() as int
        }) - e
    }

    /// How many blocks have been taken from the raw bytes.
    pub open spec fn blocks_read(&self) -> nat {
        block_count(self.emitted().len())
    }

    /// The blocks read so far are well framed, end where the raw reader
    /// stands, and what was handed out is a prefix of their decoded contents.
    pub open spec fn frames_ok(&self) -> bool {
        blocks(self.source(), self.start(), self.blocks_read()) matches Some((d, p)) && p
            == self.raw_pos() && self.emitted().len() <= d.len() && self.emitted() == d.take(
            self.emitted().len() as int,
        )
    }

    /// Where the raw reader stands in `source()`.
    pub closed spec fn raw_pos(&self) -> int {
        self.pos as int
    }

    /// The decoded, not yet truncated, bytes of the blocks read so far.
    spec fn decoded_so_far(&self) -> Seq<u8> {
        blocks(self.src@, self.start@, self.blocks_decompressed as nat).unwrap().0
    }

    /// The part of `decoded_so_far()` that lies within the declared size.
    spec fn valid_so_far(&self) -> Seq<u8> {
        let d = self.decoded_so_far();
        if d.len() > self.uncompressed_size {
            d.take(self.uncompressed_size as int)
        } else {
            d
        }
    }

    pub closed spec fn wf(&self) -> bool {
        &&& self.inv()
        &&& self.blocks_decompressed > 0 ==> self.buf_pos > 0
    }

    spec fn inv(&self) -> bool {
        &&& self.buf@.len() == BLOCK_SIZE
        &&& self.scratch@.len() == BLOCK_SIZE
        &&& self.buf_pos <= self.buf_end <= BLOCK_SIZE
        &&& 0 <= self.start@ <= self.pos <= self.src@.len()
        &&& self.uncompressed_size <= u32::MAX
        &&& self.blocks_decompressed <= block_count(self.uncompressed_size as nat)
        &&& self.eof <==> self.blocks_decompressed == block_count(self.uncompressed_size as nat)
        &&& blocks(self.src@, self.start@, self.blocks_decompressed as nat) matches Some((d, p))
            && p == self.pos
        &&& self.blocks_decompressed == 0 ==> self.buf_end == 0
        &&& self.blocks_decompressed > 0 ==> {
            let v = self.valid_so_far();
            let base = (self.blocks_decompressed - 1) * BLOCK_SIZE;
            &&& v.len() == base + self.buf_end
            &&& self.buf@.take(self.buf_end as int) == v.subrange(base, v.len() as int)
        }
        &&& self.produced == self.emitted@.len()
        &&& self.emitted@ == self.valid_so_far().take(
            self.valid_so_far().len() - (self.buf_end - self.buf_pos),
        )
    }

    /// A reader of the `uncompressed_size` logical bytes whose blocks start at
    /// `start` in `src`; nothing is read yet.
    pub fn new(src: Vec<u8>, start: usize, uncompressed_size: u32) -> (r: Self)
        requires
            start <= src@.len(),
        ensures
            r.wf(),
            r.source() == src@,
            r.start() == start,
            r.size() == uncompressed_size,
            r.emitted() == Seq::<u8>::empty(),
            r.raw_pos() == start,
            r.frames_ok(),
    {
        let buf = vec![0u8; BLOCK_SIZE];
        let scratch = vec![0u8; BLOCK_SIZE];
        let r = Decompressor {
            src,
            pos: start,
            buf,
            scratch,
            buf_pos: 0,
            buf_end: 0,
            eof: uncompressed_size == 0,
            blocks_decompressed: 0,
            uncompressed_size: uncompressed_size as u64,
            produced: 0,
            start: Ghost(start as int),
            emitted: Ghost(Seq::empty()),
        };
        assert(r.valid_so_far() =~= Seq::<u8>::empty());
        assert(uncompressed_size == 0 <==> block_count(uncompressed_size as nat) == 0) by (nonlinear_arith);
        assert(blocks(r.src@, r.start@, 0) == Some((Seq::<u8>::empty(), start as int)));
        assert(r.emitted@ =~= r.valid_so_far().take(0));
        assert(r.emitted() =~= Seq::<u8>::empty().take(0));
        r
    }

    /// Whether all the declared bytes have been handed out.
    pub fn is_finished(&self) -> (r: bool)
        requires
            self.wf(),
        ensures
            r == (self.emitted().len() == self.size()),
    {
        self.produced == self.uncompressed_size
    }

    /// Whether the raw reader has reached the end of its bytes.
    pub fn raw_exhausted(&self) -> (r: bool)
        requires
            self.wf(),
        ensures
            r == (self.raw_pos() == self.source().len()),
    {
        self.pos == self.src.len()
    }

    /// Decodes the next block into the internal buffer.
    fn next_block(&mut self) -> (r: Result<(), FormatError>)
        requires
            old(self).wf(),
            !old(self).eof,
            old(self).buf_pos == old(self).buf_end,
        ensures
            final(self).src == old(self).src,
            final(self).start == old(self).start,
            final(self).uncompressed_size == old(self).uncompressed_size,
            final(self).emitted == old(self).emitted,
            final(self).produced == old(self).produced,
            r is Ok ==> final(self).inv() && final(self).blocks_decompressed
                == old(self).blocks_decompressed + 1 && final(self).buf_pos == 0
                && final(self).buf_end > 0 && final(self).pos == old(self).pos + 4 + le32(
                old(self).src@,
                old(self).pos as int,
            ),
            r is Err ==> final(self).wf() && final(self).blocks_decompressed
                == old(self).blocks_decompressed && final(self).pos == old(self).pos
                && final(self).buf_pos == old(self).buf_pos && final(self).buf_end
                == old(self).buf_end && final(self).buf == old(self).buf && final(self).eof
                == old(self).eof && decoded(
                old(self).src@,
                old(self).start@,
                old(self).uncompressed_size as nat,
            ) is None,
            r is Err <==> block_at(old(self).src@, old(self).pos as int) is None,
            r == Err::<(), _>(FormatError::BadBlock) <==> (old(self).pos + 4 <= old(self).src@.len()
                && le32(old(self).src@, old(self).pos as int) <= BLOCK_SIZE && old(self).pos + 4
                + le32(old(self).src@, old(self).pos as int) <= old(self).src@.len() && block_at(
                old(self).src@,
                old(self).pos as int,
            ) is None),
            r == Err::<(), _>(FormatError::UnexpectedEnd) <==> (old(self).pos + 4 > old(self).src@.len()
                || (le32(old(self).src@, old(self).pos as int) <= BLOCK_SIZE && old(self).pos + 4
                + le32(old(self).src@, old(self).pos as int) > old(self).src@.len())),
            r == Err::<(), _>(FormatError::BlockTooLarge) <==> (old(self).pos + 4 <= old(self).src@.len()
                && le32(old(self).src@, old(self).pos as int) > BLOCK_SIZE),
    {
        let ghost k = self.blocks_decompressed as nat;
        let ghost size = self.uncompressed_size as nat;
        proof {
            lemma_blocks_prefix(self.src@, self.start@, k + 1, block_count(size));
            lemma_blocks_len(self.src@, self.start@, k);
        }
        let avail = self.src.len() - self.pos;
        if avail < 4 {
            return Err(FormatError::UnexpectedEnd);
        }
        let n = read_le32(self.src.as_slice(), self.pos) as usize;
        if n > BLOCK_SIZE {
            return Err(FormatError::BlockTooLarge);
        }
        if avail - 4 < n {
            return Err(FormatError::UnexpectedEnd);
        }
        let body = self.pos + 4;
        let end = body + n;
        let ghost c = self.src@.subrange(body as int, end as int);
        let ghost s0 = self.src@;
        let ghost d_old = blocks(self.src@, self.start@, k).unwrap().0;
        if !decode_block(self.src.as_slice(), body, n, &mut self.scratch) {
            return Err(FormatError::BadBlock);
        }
        let ghost payload = self.scratch@;
        assert(block_payload(c) == Some(payload));
        std::mem::swap(&mut self.buf, &mut self.scratch);
        assert(block_at(self.src@, self.pos as int) == Some((self.buf@, end as int)));
        self.pos = body + n;
        self.blocks_decompressed = self.blocks_decompressed + 1;
        self.buf_pos = 0;
        proof {
            lemma_blocks_len(self.src@, self.start@, k + 1);
        }
        assert((k + 1) * BLOCK_SIZE == k * BLOCK_SIZE + BLOCK_SIZE) by (nonlinear_arith);
        assert(self.blocks_decompressed * BLOCK_SIZE <= size + BLOCK_SIZE) by (nonlinear_arith)
            requires
                self.blocks_decompressed == k + 1,
                k + 1 <= block_count(size),
                block_count(size) == ((size + (BLOCK_SIZE - 1)) / (BLOCK_SIZE as int)) as nat,
        ;
        let done = self.blocks_decompressed * (BLOCK_SIZE as u64);
        if done >= self.uncompressed_size {
            assert(k + 1 == block_count(size)) by (nonlinear_arith)
                requires
                    k + 1 <= block_count(size),
                    (k + 1) * BLOCK_SIZE >= size,
                    k * BLOCK_SIZE < size || k == 0,
                    block_count(size) == ((size + (BLOCK_SIZE - 1)) / (BLOCK_SIZE as int)) as nat,
            ;
            self.eof = true;
            self.buf_end = (self.uncompressed_size - (self.blocks_decompressed - 1) * (BLOCK_SIZE as u64)) as usize;
        } else {
            assert(k + 1 < block_count(size)) by (nonlinear_arith)
                requires
                    (k + 1) * BLOCK_SIZE < size,
                    block_count(size) == ((size + (BLOCK_SIZE - 1)) / (BLOCK_SIZE as int)) as nat,
            ;
            self.buf_end = BLOCK_SIZE;
        }
        proof {
            let d_new = self.decoded_so_far();
            assert(d_new == d_old + self.buf@);
            let v = self.valid_so_far();
            let base = k * BLOCK_SIZE;
            assert(v.len() == base + self.buf_end);
            assert(self.buf@.take(self.buf_end as int) =~= v.subrange(base, v.len() as int));
            assert(v.take(base) =~= d_old);
            assert(blocks(self.src@, self.start@, self.blocks_decompressed as nat) == Some((d_new, self.pos as int)));
            assert(self.emitted@ =~= v.take(v.len() - (self.buf_end - self.buf_pos)));
        }
        Ok(())
    }

    /// Copies the next logical bytes into `dst`: as many as `dst` holds and
    /// the current block still has, taking a new block first when the last
    /// one is drained. It returns 0 only for an empty `dst` or once the whole
    /// declared stream has been handed out.
    #[verifier::rlimit(100)]
    pub fn read(&mut self, dst: &mut [u8]) -> (r: Result<usize, FormatError>)
        requires
            old(self).wf(),
        ensures
            final(self).wf(),
            final(self).frames_ok(),
            final(self).source() == old(self).source(),
            final(self).start() == old(self).start(),
            final(self).size() == old(self).size(),
            final(dst)@.len() == old(dst)@.len(),
            match r {
                Ok(n) => {
                    &&& n == (if old(dst)@.len() < old(self).block_left() {
                        old(dst)@.len() as int
                    } else {
                        old(self).block_left()
                    })
                    &&& final(self).emitted() == old(self).emitted() + final(dst)@.take(n as int)
                    &&& final(dst)@.skip(n as int) == old(dst)@.skip(n as int)
                    &&& (n == 0 <==> (old(dst)@.len() == 0 || old(self).emitted().len()
                        == old(self).size()))
                },
                Err(e) => {
                    &&& decoded(old(self).source(), old(self).start(), old(self).size()) is None
                    &&& final(self).emitted() == old(self).emitted()
                    &&& final(self).raw_pos() == old(self).raw_pos()
                    &&& final(dst)@ == old(dst)@
                },
            },
            decoded(old(self).source(), old(self).start(), old(self).size()) matches Some((d, p))
                ==> final(self).emitted().len() <= d.len() && final(self).emitted() == d.take(
                final(self).emitted().len() as int,
            ) && (final(self).emitted().len() == d.len() ==> final(self).raw_pos() == p),
            old(self).emitted().len() == old(self).size() ==> r == Ok::<usize, FormatError>(0),
            !(old(self).at_block_boundary() && old(dst)@.len() > 0) ==> r is Ok
                && final(self).raw_pos() == old(self).raw_pos(),
            old(self).at_block_boundary() && old(dst)@.len() > 0 ==> {
                let raw = old(self).source();
                let p = old(self).raw_pos();
                &&& r is Err <==> block_at(raw, p) is None
                &&& r is Ok ==> final(self).raw_pos() == p + 4 + le32(raw, p)
                &&& r == Err::<usize, FormatError>(FormatError::BlockTooLarge) <==> (p + 4
                    <= raw.len() && le32(raw, p) > BLOCK_SIZE)
                &&& r == Err::<usize, FormatError>(FormatError::UnexpectedEnd) <==> (p + 4
                    > raw.len() || (le32(raw, p) <= BLOCK_SIZE && p + 4 + le32(raw, p) > raw.len()))
                &&& r == Err::<usize, FormatError>(FormatError::BadBlock) <==> (p + 4 <= raw.len()
                    && le32(raw, p) <= BLOCK_SIZE && p + 4 + le32(raw, p) <= raw.len()
                    && block_at(raw, p) is None)
            },
    {
        if dst.len() == 0 {
            proof {
                self.lemma_counts();
                self.lemma_emitted_prefix();
                lemma_decoded_len(self.src@, self.start@, self.uncompressed_size as nat);
                assert(dst@.take(0) =~= Seq::<u8>::empty());
                assert(self.emitted() =~= self.emitted() + dst@.take(0));
            }
            return Ok(0);
        }
        proof {
            self.lemma_counts();
        }
        proof {
            self.lemma_emitted_prefix();
            lemma_decoded_len(self.src@, self.start@, self.uncompressed_size as nat);
        }
        let mut bytes_left = self.buf_end - self.buf_pos;
        if bytes_left == 0 {
            if self.eof {
                proof {
                    self.lemma_emitted_prefix();
                }
                return Ok(0);
            }
            self.next_block()?;
            proof {
                self.lemma_counts();
            }
            bytes_left = self.buf_end;
        }
        let to_copy = if dst.len() < bytes_left {
            dst.len()
        } else {
            bytes_left
        };
        let ghost old_dst = dst@;
        let ghost e0 = self.emitted@;
        let mut i: usize = 0;
        while i < to_copy
            invariant
                i <= to_copy <= dst@.len(),
                to_copy <= self.buf_end - self.buf_pos,
                0 < to_copy,
                self.inv(),
                self.blocks_decompressed > 0,
                self.emitted@ == e0,
                dst@.len() == old_dst.len(),
                forall|j: int| 0 <= j < i ==> dst@[j] == self.buf@[self.buf_pos + j],
                forall|j: int| i <= j < dst@.len() ==> dst@[j] == old_dst[j],
            decreases to_copy - i,
        {
            dst[i] = self.buf[self.buf_pos + i];
            i = i + 1;
        }
        proof {
            let v = self.valid_so_far();
            let base = (self.blocks_decompressed - 1) * BLOCK_SIZE;
            let e1 = v.take(v.len() - (self.buf_end - self.buf_pos - to_copy));
            assert(dst@.take(to_copy as int) =~= self.buf@.subrange(
                self.buf_pos as int,
                self.buf_pos + to_copy,
            ));
            assert(self.buf@.take(self.buf_end as int).subrange(
                self.buf_pos as int,
                self.buf_pos + to_copy,
            ) =~= self.buf@.subrange(self.buf_pos as int, self.buf_pos + to_copy));
            assert(e1 =~= e0 + dst@.take(to_copy as int));
            assert(dst@.skip(to_copy as int) =~= old_dst.skip(to_copy as int));
            self.emitted = Ghost(e1);
        }
        self.buf_pos = self.buf_pos + to_copy;
        self.produced = self.produced + to_copy as u64;
        proof {
            self.lemma_emitted_prefix();
            self.lemma_counts();
        }
        Ok(to_copy)
    }

    /// How the handed-out count relates to the blocks read and the buffer.
    proof fn lemma_counts(&self)
        requires
            self.inv(),
        ensures
            self.blocks_decompressed > 0 ==> self.emitted().len() == (self.blocks_decompressed - 1)
                * BLOCK_SIZE + self.buf_pos,
            self.blocks_decompressed == 0 ==> self.emitted().len() == 0,
            self.buf_pos < self.buf_end ==> self.buf_end - self.buf_pos == self.block_left(),
            self.buf_pos == self.buf_end && !self.eof ==> self.at_block_boundary()
                && self.emitted().len() == self.blocks_decompressed * BLOCK_SIZE,
            self.buf_pos == self.buf_end && self.eof ==> self.emitted().len() == self.size(),
            self.wf() ==> (self.at_block_boundary() <==> (self.buf_pos == self.buf_end
                && !self.eof)),
            self.wf() ==> self.blocks_read() == self.blocks_decompressed,
            self.wf() ==> self.frames_ok(),
    {
        let size = self.uncompressed_size as nat;
        let k = self.blocks_decompressed as nat;
        let b = BLOCK_SIZE as int;
        let e = self.emitted().len() as int;
        let bp = self.buf_pos as int;
        self.lemma_emitted_prefix();
        lemma_blocks_len(self.src@, self.start@, k);
        let d = self.decoded_so_far();
        let v = self.valid_so_far();
        if k > 0 {
            assert(e == (k - 1) * b + bp);
            assert(v.len() == (if k * b < size { k * b } else { size as int }));
            if bp < self.buf_end {
                assert(e / b == k - 1) by (nonlinear_arith)
                    requires
                        e == (k - 1) * b + bp,
                        0 <= bp < b,
                        b == 0x10000,
                        k >= 1,
                ;
                assert((e / b + 1) * b == k * b) by (nonlinear_arith)
                    requires
                        e / b == k - 1,
                ;
            }
            if !self.eof {
                assert(k * b < size) by (nonlinear_arith)
                    requires
                        k < block_count(size),
                        block_count(size) == ((size + (b - 1)) / b) as nat,
                        b == 0x10000,
                ;
            }
            if self.buf_pos == self.buf_end && !self.eof {
                assert(e == k * b);
                assert(e % b == 0) by (nonlinear_arith)
                    requires
                        e == k * b,
                        b == 0x10000,
                ;
            }
            if self.blocks_decompressed > 0 && self.buf_pos > 0 {
                assert(block_count(e as nat) == k) by (nonlinear_arith)
                    requires
                        e == (k - 1) * b + bp,
                        0 < bp <= b,
                        b == 0x10000,
                        k >= 1,
                ;
                if bp < self.buf_end {
                    assert(e % b != 0) by (nonlinear_arith)
                        requires
                            e == (k - 1) * b + bp,
                            0 < bp < b,
                            b == 0x10000,
                            k >= 1,
                    ;
                }
            }
        } else {
            assert(v =~= Seq::<u8>::empty());
            assert(block_count(0) == 0);
        }
        if self.wf() {
            assert(self.emitted() =~= d.take(e));
        }
    }

    /// What was handed out so far is a prefix of the declared stream.
    pub proof fn lemma_emitted_is_prefix(&self)
        requires
            self.wf(),
        ensures
            decoded(self.source(), self.start(), self.size()) matches Some((d, p))
                ==> self.emitted().len() <= d.len() && self.emitted() == d.take(
                self.emitted().len() as int,
            ) && (self.emitted().len() == d.len() ==> self.raw_pos() == p),
            self.emitted().len() <= self.size(),
    {
        self.lemma_emitted_prefix();
        lemma_decoded_len(self.src@, self.start@, self.uncompressed_size as nat);
    }

    /// What was handed out is a prefix of the declared stream, and all of it
    /// once the last block is read and drained.
    proof fn lemma_emitted_prefix(&self)
        requires
            self.inv(),
        ensures
            self.emitted().len() <= self.size(),
            self.buf_end == self.buf_pos && !self.eof ==> self.emitted().len() < self.size(),
            self.buf_end > self.buf_pos ==> self.emitted().len() < self.size(),
            self.eof && self.buf_end == self.buf_pos ==> self.emitted().len() == self.size(),
            decoded(self.src@, self.start@, self.uncompressed_size as nat) matches Some((d, p))
                ==> self.emitted().len() <= d.len() && self.emitted() == d.take(
                self.emitted().len() as int,
            ) && (self.eof ==> p == self.pos),
    {
        let size = self.uncompressed_size as nat;
        let k = self.blocks_decompressed as nat;
        lemma_blocks_len(self.src@, self.start@, k);
        lemma_blocks_prefix(self.src@, self.start@, k, block_count(size));
        lemma_decoded_len(self.src@, self.start@, size);
        let v = self.valid_so_far();
        if k < block_count(size) {
            assert(k * BLOCK_SIZE < size) by (nonlinear_arith)
                requires
                    k < block_count(size),
                    block_count(size) == ((size + (BLOCK_SIZE - 1)) / (BLOCK_SIZE as int)) as nat,
            ;
        } else {
            assert(k * BLOCK_SIZE >= size) by (nonlinear_arith)
                requires
                    k == block_count(size),
                    block_count(size) == ((size + (BLOCK_SIZE - 1)) / (BLOCK_SIZE as int)) as nat,
            ;
        }
        if let Some((d, p)) = decoded(self.src@, self.start@, size) {
            let full = blocks(self.src@, self.start@, block_count(size)).unwrap().0;
            let dk = self.decoded_so_far();
            assert(full.take(dk.len() as int) == dk);
            assert(block_count(size) * BLOCK_SIZE >= size) by (nonlinear_arith)
                requires
                    block_count(size) == ((size + (BLOCK_SIZE - 1)) / (BLOCK_SIZE as int)) as nat,
            ;
            lemma_blocks_len(self.src@, self.start@, block_count(size));
            if dk.len() > size {
                assert(v =~= full.take(size as int));
            } else {
                assert(d.take(dk.len() as int) =~= full.take(dk.len() as int));
            }
            assert(v =~= d.take(v.len() as int));
            assert(self.emitted() =~= d.take(self.emitted().len() as int));
        }
    }
}

/// The framed blocks `hs[i] + fs[i]` one after another.
pub open spec fn framed(hs: Seq<Seq<u8>>, fs: Seq<Seq<u8>>) -> Seq<u8>
    decreases fs.len(),
{
    if fs.len() == 0 {
        Seq::empty()
    } else {
        framed(hs, fs.drop_last()) + hs[fs.len() - 1] + fs.last()
    }
}

/// The blocks' decoded contents one after another.
pub open spec fn joined(ps: Seq<Seq<u8>>) -> Seq<u8>
    decreases ps.len(),
{
    if ps.len() == 0 {
        Seq::empty()
    } else {
        joined(ps.drop_last()) + ps.last()
    }
}

/// `fs[i]` is a valid encoding of the full block `ps[i]`: stored verbatim, or
/// a shorter zlib stream that inflates to it.
pub open spec fn encodes(f: Seq<u8>, p: Seq<u8>) -> bool {
    &&& p.len() == BLOCK_SIZE
    &&& (f == p || (f.len() < BLOCK_SIZE && zlib_decoded(f) == Some(p)))
}

proof fn lemma_framed_prefix(hs: Seq<Seq<u8>>, fs: Seq<Seq<u8>>, j: nat)
    requires
        j <= fs.len(),
    ensures
        framed(hs, fs.take(j as int)).len() <= framed(hs, fs).len(),
        framed(hs, fs).take(framed(hs, fs.take(j as int)).len() as int) == framed(
            hs,
            fs.take(j as int),
        ),
    decreases fs.len() - j,
{
    if j == fs.len() {
        assert(fs.take(j as int) =~= fs);
        assert(framed(hs, fs).take(framed(hs, fs).len() as int) =~= framed(hs, fs));
    } else {
        let f = fs.take(j as int + 1);
        lemma_framed_prefix(hs, fs, j + 1);
        assert(f.drop_last() =~= fs.take(j as int));
        let a = framed(hs, fs.take(j as int));
        let b = framed(hs, f);
        assert(b.take(a.len() as int) =~= a);
        assert(framed(hs, fs).take(a.len() as int) =~= b.take(a.len() as int));
    }
}

proof fn lemma_blocks_of_framed(hs: Seq<Seq<u8>>, fs: Seq<Seq<u8>>, ps: Seq<Seq<u8>>, k: nat)
    requires
        k <= fs.len(),
        fs.len() == ps.len(),
        hs.len() >= fs.len(),
        forall|i: int|
            0 <= i < fs.len() ==> (#[trigger] hs[i]).len() == 4 && le32(hs[i], 0) == fs[i].len(),
        forall|i: int| 0 <= i < fs.len() ==> encodes(#[trigger] fs[i], ps[i]),
    ensures
        blocks(framed(hs, fs), 0, k) == Some(
            (joined(ps.take(k as int)), framed(hs, fs.take(k as int)).len() as int),
        ),
    decreases k,
{
    let raw = framed(hs, fs);
    if k == 0 {
        assert(ps.take(0) =~= Seq::<Seq<u8>>::empty());
        assert(fs.take(0) =~= Seq::<Seq<u8>>::empty());
    } else {
        let i = k - 1;
        lemma_blocks_of_framed(hs, fs, ps, i as nat);
        lemma_framed_prefix(hs, fs, k);
        let fk = fs.take(k as int);
        assert(fk.drop_last() =~= fs.take(i));
        let pre = framed(hs, fs.take(i));
        let cur = framed(hs, fk);
        assert(cur =~= pre + hs[i] + fs[i]);
        let p = pre.len() as int;
        assert(raw.take(cur.len() as int) == cur);
        assert(forall|t: int| 0 <= t < cur.len() ==> raw[t] == #[trigger] cur[t]) by {
            assert forall|t: int| 0 <= t < cur.len() implies raw[t] == #[trigger] cur[t] by {
                assert(raw.take(cur.len() as int)[t] == raw[t]);
            }
        }
        assert(le32(raw, p) == le32(hs[i], 0)) by {
            assert(raw[p] == cur[p]);
            assert(raw[p + 1] == cur[p + 1]);
            assert(raw[p + 2] == cur[p + 2]);
            assert(raw[p + 3] == cur[p + 3]);
        }
        assert(raw.subrange(p + 4, p + 4 + fs[i].len()) =~= fs[i]) by {
            assert forall|t: int| 0 <= t < fs[i].len() implies raw.subrange(
                p + 4,
                p + 4 + fs[i].len(),
            )[t] == fs[i][t] by {
                assert(raw[p + 4 + t] == cur[p + 4 + t]);
            }
        }
        let pk = ps.take(k as int);
        assert(pk.drop_last() =~= ps.take(i));
    }
}

/// Round trip: full blocks, each stored verbatim or deflated, framed with
/// their little-endian lengths, decode to the data they were cut from,
/// including a final block that is cut short by the declared size.
pub proof fn lemma_round_trip(data: Seq<u8>, hs: Seq<Seq<u8>>, fs: Seq<Seq<u8>>, ps: Seq<Seq<u8>>)
    requires
        fs.len() == ps.len() == block_count(data.len()),
        hs.len() == fs.len(),
        forall|i: int|
            0 <= i < fs.len() ==> (#[trigger] hs[i]).len() == 4 && le32(hs[i], 0) == fs[i].len(),
        forall|i: int| 0 <= i < fs.len() ==> encodes(#[trigger] fs[i], ps[i]),
        joined(ps).take(data.len() as int) == data,
    ensures
        decoded(framed(hs, fs), 0, data.len()) == Some((data, framed(hs, fs).len() as int)),
{
    lemma_blocks_of_framed(hs, fs, ps, fs.len());
    assert(fs.take(fs.len() as int) =~= fs);
    assert(ps.take(ps.len() as int) =~= ps);
}

} // verus!
