//! The bundle container: an outer header over the block stream, then in the
//! decoded stream a container header, the file index, an auxiliary section
//! and one record per file.

use vstd::prelude::*;

use crate::bytes::{le32, le64, read_le32, read_le64};
use crate::decompress::{decoded, lemma_decoded_len, Decompressor, BLOCK_SIZE};
use crate::FormatError;

verus! {

/// The magic number that opens a bundle file.
pub const OUTER_MAGIC: u32 = 0xF000_0007;

/// The magic number of the container header and of each file record.
pub const CONTAINER_MAGIC: u32 = 1;

/// Length of the outer header: magic, decoded size, reserved word.
pub const OUTER_HEADER_LEN: usize = 12;

/// The decoded size an outer header declares, or why the header is refused.
pub open spec fn outer_header(raw: Seq<u8>) -> Result<nat, FormatError> {
    if raw.len() < 12 {
        Err(FormatError::UnexpectedEnd)
    } else if le32(raw, 0) != OUTER_MAGIC {
        Err(FormatError::BadMagic)
    } else if le32(raw, 8) != 0 {
        Err(FormatError::BadReserved)
    } else {
        Ok(le32(raw, 4) as nat)
    }
}

/// Where the file records start in a decoded stream `d`: after the container
/// header, the 16-byte index entries and the 32-byte auxiliary records.
pub open spec fn records_start(d: Seq<u8>) -> int {
    12 + 16 * le32(d, 4) + 32 * le32(d, 8)
}

/// The decoded stream of a bundle file whose outer header is valid.
pub open spec fn bundle_stream(raw: Seq<u8>) -> Option<Seq<u8>> {
    match outer_header(raw) {
        Ok(size) => match decoded(raw, 12, size) {
            Some((d, p)) => Some(d),
            None => None,
        },
        Err(e) => None,
    }
}

/// A decoded stream that starts with `d0` has the header fields of `d0`.
proof fn lemma_header_fields(raw: Seq<u8>, size: nat, d0: Seq<u8>)
    requires
        d0.len() == 12,
        decoded(raw, 12, size) matches Some((d, p)) ==> d.len() >= 12 && d.take(12) == d0,
    ensures
        decoded(raw, 12, size) matches Some((d, p)) ==> le32(d, 0) == le32(d0, 0) && le32(d, 4)
            == le32(d0, 4) && le32(d, 8) == le32(d0, 8),
{
    if let Some((d, p)) = decoded(raw, 12, size) {
        assert(forall|k: int| 0 <= k < 12 ==> d[k] == #[trigger] d.take(12)[k]);
    }
}

proof fn take_of_take(raw: Seq<u8>, size: nat, e: Seq<u8>, d0: Seq<u8>)
    requires
        d0.len() == 12,
        e.len() >= 12,
        e.take(12) == d0,
        decoded(raw, 12, size) matches Some((d, p)) ==> e.len() <= d.len() && e == d.take(
            e.len() as int,
        ),
    ensures
        decoded(raw, 12, size) matches Some((d, p)) ==> d.len() >= 12 && d.take(12) == d0,
{
    if let Some((d, p)) = decoded(raw, 12, size) {
        assert(d.take(12) =~= e.take(12));
    }
}

/// One file of the container: the hashes of its extension and of its name, and its body.
pub struct FileRecord {
    pub ext_hash: u64,
    pub name_hash: u64,
    pub body: Vec<u8>,
}

/// A sequential reader of the files of one bundle.
pub struct BundleReader {
    dec: Decompressor,
    file_count: u32,
    remaining: u32,
}

/// Reads the next `n` decoded bytes.
fn read_exact(dec: &mut Decompressor, n: usize) -> (r: Result<Vec<u8>, FormatError>)
    requires
        old(dec).wf(),
    ensures
        final(dec).wf(),
        final(dec).source() == old(dec).source(),
        final(dec).start() == old(dec).start(),
        final(dec).size() == old(dec).size(),
        match r {
            Ok(v) => v@.len() == n && final(dec).emitted() == old(dec).emitted() + v@,
            Err(e) => decoded(old(dec).source(), old(dec).start(), old(dec).size()) is None
                || old(dec).emitted().len() + n > old(dec).size(),
        },
        decoded(old(dec).source(), old(dec).start(), old(dec).size()) matches Some((d, p))
            ==> final(dec).emitted().len() <= d.len() && final(dec).emitted() == d.take(
            final(dec).emitted().len() as int,
        ) && (final(dec).emitted().len() == d.len() ==> final(dec).raw_pos() == p),
{
    let ghost e0 = dec.emitted();
    proof {
        dec.lemma_emitted_is_prefix();
    }
    let mut out: Vec<u8> = Vec::new();
    proof {
        assert(e0 + out@ =~= e0);
    }
    while out.len() < n
        invariant
            out@.len() <= n,
            dec.wf(),
            dec.source() == old(dec).source(),
            dec.start() == old(dec).start(),
            dec.size() == old(dec).size(),
            dec.emitted() == e0 + out@,
            e0 == old(dec).emitted(),
            decoded(dec.source(), dec.start(), dec.size()) matches Some((d, p))
                ==> dec.emitted().len() <= d.len() && dec.emitted() == d.take(
                dec.emitted().len() as int,
            ) && (dec.emitted().len() == d.len() ==> dec.raw_pos() == p),
        decreases n - out@.len(),
    {
        let want = if n - out.len() < BLOCK_SIZE {
            n - out.len()
        } else {
            BLOCK_SIZE
        };
        let mut chunk = vec![0u8; want];
        let got = dec.read(chunk.as_mut_slice())?;
        if got == 0 {
            return Err(FormatError::UnexpectedEnd);
        }
        let ghost before = out@;
        let mut i: usize = 0;
        while i < got
            invariant
                i <= got <= chunk@.len(),
                before.len() + got <= n,
                out@ == before + chunk@.take(i as int),
            decreases got - i,
        {
            out.push(chunk[i]);
            i = i + 1;
            assert(out@ =~= before + chunk@.take(i as int));
        }
        assert(dec.emitted() =~= e0 + out@);
    }
    Ok(out)
}

impl BundleReader {
    /// The decoded bytes read so far.
    pub closed spec fn consumed(&self) -> Seq<u8> {
        self.dec.emitted()
    }

    /// The raw bytes of the bundle file.
    pub closed spec fn raw(&self) -> Seq<u8> {
        self.dec.source()
    }

    /// The number of file records not yet read.
    pub closed spec fn files_left(&self) -> nat {
        self.remaining as nat
    }

    pub closed spec fn wf(&self) -> bool {
        &&& self.dec.wf()
        &&& self.dec.start() == 12
        &&& outer_header(self.dec.source()) == Ok::<nat, FormatError>(self.dec.size())
        &&& self.remaining <= self.file_count
    }

    /// What was read is a prefix of the decoded stream, and once all of it
    /// is read the raw reader stands right after the last block it needs.
    pub open spec fn in_step(&self) -> bool {
        &&& bundle_stream(self.raw()) matches Some(d) ==> self.consumed() == d.take(
            self.consumed().len() as int,
        )
        &&& self.consumed().len() == self.declared_size() ==> (decoded(
            self.raw(),
            12,
            self.declared_size(),
        ) matches Some((d, p)) ==> self.raw_pos() == p)
    }

    /// Reads the outer header, the container header, the index and the
    /// auxiliary section of the bundle file `raw`, leaving the reader before
    /// the first file record.
    pub fn open(raw: Vec<u8>) -> (r: Result<Self, FormatError>)
        ensures
            outer_header(raw@) matches Err(e) ==> r == Err::<Self, FormatError>(e),
            r matches Ok(b) ==> {
                &&& b.wf()
                &&& b.in_step()
                &&& b.raw() == raw@
                &&& outer_header(raw@) is Ok
                &&& bundle_stream(raw@) matches Some(d) ==> {
                    &&& d.len() >= 12
                    &&& le32(d, 0) == CONTAINER_MAGIC
                    &&& b.consumed() == d.take(records_start(d))
                    &&& b.files_left() == le32(d, 4)
                    &&& b.file_total() == le32(d, 4)
                }
            },
            bundle_stream(raw@) matches Some(d) ==> {
                &&& d.len() >= 12 && le32(d, 0) != CONTAINER_MAGIC ==> r == Err::<Self, FormatError>(
                    FormatError::BadMagic,
                )
                &&& d.len() >= 12 && le32(d, 0) == CONTAINER_MAGIC && records_start(d) <= d.len()
                    ==> r is Ok
            },
    {
        if raw.len() < OUTER_HEADER_LEN {
            return Err(FormatError::UnexpectedEnd);
        }
        let magic = read_le32(raw.as_slice(), 0);
        let size = read_le32(raw.as_slice(), 4);
        let reserved = read_le32(raw.as_slice(), 8);
        if magic != OUTER_MAGIC {
            return Err(FormatError::BadMagic);
        }
        if reserved != 0 {
            return Err(FormatError::BadReserved);
        }
        let ghost rv = raw@;
        let mut dec = Decompressor::new(raw, OUTER_HEADER_LEN, size);
        proof {
            lemma_decoded_len(rv, 12, size as nat);
        }
        let header = read_exact(&mut dec, 12)?;
        let ghost d0 = header@;
        assert(dec.emitted() =~= header@);
        let ghost hdr = outer_header(rv);
        assert(hdr == Ok::<nat, FormatError>(size as nat));
        let cmagic = read_le32(header.as_slice(), 0);
        let file_count = read_le32(header.as_slice(), 4);
        let other_count = read_le32(header.as_slice(), 8);
        if cmagic != CONTAINER_MAGIC {
            return Err(FormatError::BadMagic);
        }
        let mut i: u32 = 0;
        while i < file_count
            invariant
                i <= file_count,
                dec.wf(),
                dec.source() == rv,
                dec.start() == 12,
                dec.size() == size,
                dec.emitted().len() == 12 + 16 * i,
                dec.emitted().take(12) == d0,
                d0.len() == 12,
                file_count == le32(d0, 4),
                other_count == le32(d0, 8),
                le32(d0, 0) == CONTAINER_MAGIC,
                outer_header(rv) == Ok::<nat, FormatError>(size as nat),
                rv == raw@,
                decoded(rv, 12, size as nat) matches Some((d, p)) ==> d.len() == size,
                decoded(rv, 12, size as nat) matches Some((d, p)) ==> dec.emitted().len() <= d.len()
                    && dec.emitted() == d.take(dec.emitted().len() as int),
            decreases file_count - i,
        {
            let ghost e = dec.emitted();
            proof {
                take_of_take(rv, size as nat, e, d0);
                lemma_header_fields(rv, size as nat, d0);
            }
            match read_exact(&mut dec, 16) {
                Ok(_) => {},
                Err(err) => {
                    return Err(err);
                },
            }
            assert(dec.emitted().take(12) =~= e.take(12));
            i = i + 1;
        }
        let mut j: u32 = 0;
        while j < other_count
            invariant
                j <= other_count,
                dec.wf(),
                dec.source() == rv,
                dec.start() == 12,
                dec.size() == size,
                dec.emitted().len() == 12 + 16 * file_count + 32 * j,
                dec.emitted().take(12) == d0,
                d0.len() == 12,
                file_count == le32(d0, 4),
                other_count == le32(d0, 8),
                le32(d0, 0) == CONTAINER_MAGIC,
                outer_header(rv) == Ok::<nat, FormatError>(size as nat),
                rv == raw@,
                decoded(rv, 12, size as nat) matches Some((d, p)) ==> d.len() == size,
                decoded(rv, 12, size as nat) matches Some((d, p)) ==> dec.emitted().len() <= d.len()
                    && dec.emitted() == d.take(dec.emitted().len() as int),
            decreases other_count - j,
        {
            let ghost e = dec.emitted();
            proof {
                take_of_take(rv, size as nat, e, d0);
                lemma_header_fields(rv, size as nat, d0);
            }
            match read_exact(&mut dec, 32) {
                Ok(_) => {},
                Err(err) => {
                    return Err(err);
                },
            }
            assert(dec.emitted().take(12) =~= e.take(12));
            j = j + 1;
        }
        proof {
            take_of_take(rv, size as nat, dec.emitted(), d0);
            lemma_header_fields(rv, size as nat, d0);
            dec.lemma_emitted_is_prefix();
        }
        Ok(BundleReader { dec, file_count, remaining: file_count })
    }

    /// The number of files the container header declares.
    pub closed spec fn file_total(&self) -> nat {
        self.file_count as nat
    }

    /// The number of files the container header declares.
    pub fn file_count(&self) -> (r: u32)
        ensures
            r == self.file_total(),
    {
        self.file_count
    }

    /// The length of the decoded stream that the outer header declares.
    pub closed spec fn declared_size(&self) -> nat {
        self.dec.size()
    }

    /// Where the raw reader stands in `raw()`.
    pub closed spec fn raw_pos(&self) -> int {
        self.dec.raw_pos()
    }

    /// Reads the next file record; once all of them are read, checks that
    /// both the decoded stream and the raw bytes are used up and gives `None`.
    pub fn next_file(&mut self) -> (r: Result<Option<FileRecord>, FormatError>)
        requires
            old(self).wf(),
        ensures
            final(self).wf(),
            final(self).in_step(),
            final(self).raw() == old(self).raw(),
            final(self).declared_size() == old(self).declared_size(),
            final(self).file_total() == old(self).file_total(),
            old(self).files_left() == 0 ==> {
                &&& final(self).consumed() == old(self).consumed()
                &&& (r is Ok <==> (old(self).consumed().len() == old(self).declared_size()
                    && old(self).raw_pos() == old(self).raw().len()))
                &&& r is Ok ==> r == Ok::<Option<FileRecord>, FormatError>(None)
                &&& r is Err ==> r == Err::<Option<FileRecord>, FormatError>(
                    FormatError::TrailingData,
                )
            },
            old(self).files_left() > 0 ==> match r {
                Ok(Some(rec)) => {
                    let e = final(self).consumed();
                    let o = old(self).consumed().len() as int;
                    &&& final(self).files_left() == old(self).files_left() - 1
                    &&& e.len() == o + 32 + rec.body@.len()
                    &&& e.take(o) == old(self).consumed()
                    &&& rec.ext_hash == le64(e, o)
                    &&& rec.name_hash == le64(e, o + 8)
                    &&& le32(e, o + 16) == CONTAINER_MAGIC
                    &&& le32(e, o + 20) == 0
                    &&& rec.body@.len() == le32(e, o + 24)
                    &&& le32(e, o + 28) == 0
                    &&& rec.body@ == e.skip(o + 32)
                },
                Ok(None) => false,
                Err(_) => true,
            },
            bundle_stream(old(self).raw()) matches Some(d) ==> {
                let o = old(self).consumed().len() as int;
                old(self).files_left() > 0 && o + 32 <= d.len() ==> {
                    &&& le32(d, o + 16) != CONTAINER_MAGIC ==> r == Err::<Option<FileRecord>, FormatError>(
                        FormatError::BadMagic,
                    )
                    &&& le32(d, o + 16) == CONTAINER_MAGIC && (le32(d, o + 20) != 0 || le32(d, o + 28)
                        != 0) ==> r == Err::<Option<FileRecord>, FormatError>(FormatError::BadReserved)
                    &&& le32(d, o + 16) == CONTAINER_MAGIC && le32(d, o + 20) == 0 && le32(d, o + 28)
                        == 0 && o + 32 + le32(d, o + 24) <= d.len() ==> r matches Ok(Some(_))
                }
            },
    {
        proof {
            self.dec.lemma_emitted_is_prefix();
            lemma_decoded_len(self.dec.source(), 12, self.dec.size());
        }
        if self.remaining == 0 {
            if self.dec.is_finished() && self.dec.raw_exhausted() {
                return Ok(None);
            }
            return Err(FormatError::TrailingData);
        }
        let ghost e0 = self.dec.emitted();
        let header = read_exact(&mut self.dec, 32)?;
        let ghost e1 = self.dec.emitted();
        let ext_hash = read_le64(header.as_slice(), 0);
        let name_hash = read_le64(header.as_slice(), 8);
        let magic = read_le32(header.as_slice(), 16);
        let reserved1 = read_le32(header.as_slice(), 20);
        let body_size = read_le32(header.as_slice(), 24);
        let reserved2 = read_le32(header.as_slice(), 28);
        proof {
            let o = e0.len() as int;
            assert(forall|k: int| 0 <= k < 32 ==> e1[o + k] == #[trigger] header@[k]);
            if let Some((d, p)) = decoded(self.dec.source(), 12, self.dec.size()) {
                assert(forall|k: int| 0 <= k < o + 32 ==> d[k] == #[trigger] e1[k]);
            }
        }
        if magic != CONTAINER_MAGIC {
            return Err(FormatError::BadMagic);
        }
        if reserved1 != 0 || reserved2 != 0 {
            return Err(FormatError::BadReserved);
        }
        let body = read_exact(&mut self.dec, body_size as usize)?;
        self.remaining = self.remaining - 1;
        proof {
            let e = self.dec.emitted();
            let o = e0.len() as int;
            assert(e.take(o) =~= e0);
            assert(e.skip(o + 32) =~= body@);
            assert(forall|k: int| 0 <= k < 32 ==> e[o + k] == #[trigger] e1[o + k]);
        }
        Ok(Some(FileRecord { ext_hash, name_hash, body }))
    }
}

} // verus!
