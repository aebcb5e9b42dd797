//! Blocks as they are stored in a table file: compressed where that pays, and
//! followed by a trailer.

use vstd::prelude::*;

use std::sync::Arc;

use crate::block::block_trailer;
use crate::block::BlockHandle;
use crate::block::BlockTrailer;
use crate::crc32c;
use crate::env::RandomAccessFile;
use crate::status;
use crate::status::Status;

verus! {

/// The size of the trailer behind every block: one byte for the kind of
/// compression, four for the checksum.
pub const BLOCK_TRAILER_SIZE: usize = 5;

/// Compresses blocks.
pub trait Compressor: Send + Sync {
    /// The kind byte that marks the blocks of this compressor.
    spec fn code(&self) -> u8;

    /// What becomes of a block; `None` where it is better stored as it is.
    spec fn pressed(&self, input: Seq<u8>) -> Option<Seq<u8>>;

    /// What a compressed block holds; `None` where it is malformed.
    spec fn unpressed(&self, input: Seq<u8>) -> Option<Seq<u8>>;

    /// The kind byte. Zero stands for blocks that are not compressed.
    fn kind(&self) -> (kind: u8)
        ensures
            kind == self.code(),
            kind > 0,
    ;

    /// Compresses a block in such a way that it can be restored.
    fn compress(&self, input: &[u8]) -> (output: Option<Vec<u8>>)
        ensures
            match self.pressed(input@) {
                None => output is None,
                Some(expected) => output matches Some(bytes) && bytes@ == expected
                    && self.unpressed(expected) == Some(input@),
            },
    ;

    /// Restores a block.
    fn decompress(&self, input: &[u8]) -> (output: status::Result<Vec<u8>>)
        ensures
            match self.unpressed(input@) {
                None => output matches Err(error) && error.kind() == status::Code::Corruption,
                Some(expected) => output matches Ok(bytes) && bytes@ == expected,
            },
    ;
}

/// Stands where no compressor is in use.
#[derive(Debug, Copy, Clone)]
pub struct NoCompressor;

impl Compressor for NoCompressor {
    open spec fn code(&self) -> u8 {
        255
    }

    open spec fn pressed(&self, input: Seq<u8>) -> Option<Seq<u8>> {
        None
    }

    open spec fn unpressed(&self, input: Seq<u8>) -> Option<Seq<u8>> {
        None
    }

    fn kind(&self) -> (kind: u8) {
        255
    }

    fn compress(&self, input: &[u8]) -> (output: Option<Vec<u8>>) {
        None
    }

    fn decompress(&self, input: &[u8]) -> (output: status::Result<Vec<u8>>) {
        Err(Status::corruption("NoCompressor: nothing was compressed"))
    }
}

/// The kind byte of a block and the bytes that are stored of it.
pub open spec fn body_of<Z: Compressor>(compressor: Option<Arc<Z>>, block: Seq<u8>) -> (
    u8,
    Seq<u8>,
) {
    match compressor {
        None => (BlockTrailer::KIND_NO_COMPRESSION, block),
        Some(c) => match c.pressed(block) {
            None => (BlockTrailer::KIND_NO_COMPRESSION, block),
            Some(bytes) => (c.code(), bytes),
        },
    }
}

/// The checksum of a stored block: it covers the body and the kind.
pub open spec fn body_crc(kind: u8, body: Seq<u8>) -> u32 {
    crc32c::extended(crc32c::checksum(body), seq![kind])
}

/// A body with its trailer.
pub open spec fn with_trailer(kind: u8, body: Seq<u8>) -> Seq<u8> {
    body + BlockTrailer { kind, crc: body_crc(kind, body) }.encoded()
}

/// A block as it is stored.
pub open spec fn stored<Z: Compressor>(compressor: Option<Arc<Z>>, block: Seq<u8>) -> Seq<u8> {
    let (kind, body) = body_of(compressor, block);
    with_trailer(kind, body)
}

/// What comes of reading a stored block.
pub enum StoredRead {
    /// The handle or the block is wrong.
    Corrupt(Seq<char>),
    /// The handle leads out of the file.
    OutOfFile,
    /// The compressor finds the body malformed.
    Malformed,
    /// The block.
    Block(Seq<u8>),
}

/// Reads the stored block that a handle leads to.
pub open spec fn read_stored<Z: Compressor>(
    file: Seq<u8>,
    handle: BlockHandle,
    verify: bool,
    compressor: Option<Arc<Z>>,
) -> StoredRead {
    let body = file.subrange(handle.offset as int, handle.offset + handle.size);
    let trailer = block_trailer::trailer_of(file.skip(handle.offset + handle.size));
    if handle.size > usize::MAX {
        StoredRead::Corrupt("Table: block size overflow"@)
    } else if handle.size + 5 > usize::MAX {
        StoredRead::Corrupt("Table: block read size overflow"@)
    } else if handle.offset + handle.size + 5 > file.len() {
        StoredRead::OutOfFile
    } else if verify && body_crc(trailer.kind, body) != trailer.crc {
        StoredRead::Corrupt("Table: block checksum mismatch"@)
    } else if trailer.kind == BlockTrailer::KIND_NO_COMPRESSION {
        StoredRead::Block(body)
    } else {
        match compressor {
            None => StoredRead::Corrupt("Table: unsupported compression"@),
            Some(c) => if c.code() != trailer.kind {
                StoredRead::Corrupt("Table: unsupported compression"@)
            } else {
                match c.unpressed(body) {
                    None => StoredRead::Malformed,
                    Some(block) => StoredRead::Block(block),
                }
            },
        }
    }
}

/// Whether what was read is what the file holds.
pub open spec fn stored_read_is(expected: StoredRead, read: status::Result<Vec<u8>>) -> bool {
    match expected {
        StoredRead::Corrupt(text) => read matches Err(error) && error.says(
            status::Code::Corruption,
            text,
        ),
        StoredRead::OutOfFile => read is Err,
        StoredRead::Malformed => read matches Err(error) && error.kind()
            == status::Code::Corruption,
        StoredRead::Block(block) => read matches Ok(bytes) && bytes@ == block,
    }
}

/// The compressor restores what it made of a block.
pub open spec fn restores<Z: Compressor>(compressor: Option<Arc<Z>>, block: Seq<u8>) -> bool {
    compressor matches Some(c) ==> c.code() > 0 && (c.pressed(block) matches Some(bytes)
        ==> c.unpressed(bytes) == Some(block))
}

/// A block that was stored is read back from where it lies.
pub proof fn law_stored_round_trip<Z: Compressor>(
    file: Seq<u8>,
    handle: BlockHandle,
    verify: bool,
    compressor: Option<Arc<Z>>,
    block: Seq<u8>,
)
    requires
        handle.size == body_of(compressor, block).1.len(),
        handle.size + 5 <= usize::MAX,
        handle.offset + handle.size + 5 <= file.len(),
        file.subrange(handle.offset as int, handle.offset + handle.size + 5) == stored(
            compressor,
            block,
        ),
        restores(compressor, block),
    ensures
        read_stored(file, handle, verify, compressor) == StoredRead::Block(block),
{
    let (kind, body) = body_of(compressor, block);
    let trailer = BlockTrailer { kind, crc: body_crc(kind, body) };
    let at = handle.offset as int;
    let size = handle.size as int;
    let whole = file.subrange(at, at + size + 5);
    block_trailer::law_trailer_round_trip(trailer, file.skip(at + size + 5));
    assert(file.subrange(at, at + size) =~= whole.take(size));
    assert(whole.take(size) =~= body);
    assert(whole.skip(size) =~= trailer.encoded());
    assert(file.skip(at + size) =~= whole.skip(size) + file.skip(at + size + 5));
}

/// Puts a block into the form in which it is stored, and says how long the body
/// is.
pub fn encode_stored<Z: Compressor>(compressor: &Option<Arc<Z>>, block: &[u8]) -> (encoded: (
    Vec<u8>,
    usize,
))
    ensures
        encoded.0@ == stored(*compressor, block@),
        encoded.1 == body_of(*compressor, block@).1.len(),
        encoded.0@.len() == encoded.1 + 5,
        restores(*compressor, block@),
{
    let pressed: Option<(u8, Vec<u8>)> = match compressor {
        None => None,
        Some(c) => {
            let kind = c.kind();
            match c.compress(block) {
                None => None,
                Some(bytes) => Some((kind, bytes)),
            }
        },
    };
    let (kind, mut encoded) = match pressed {
        None => (BlockTrailer::KIND_NO_COMPRESSION, vstd::slice::slice_to_vec(block)),
        Some(found) => found,
    };
    let size: usize = encoded.len();
    let one: [u8; 1] = [kind];
    assert(one@ =~= seq![kind]);
    let crc = crc32c::extend(crc32c::value(encoded.as_slice()), one.as_slice());
    let trailer = BlockTrailer { kind, crc };
    proof {
        block_trailer::law_trailer_round_trip(trailer, Seq::empty());
    }
    trailer.encode(&mut encoded);
    (encoded, size)
}

/// Reads the stored block that a handle leads to. With `verify` the checksum is
/// held against the body.
pub fn read_block_from_file<F: RandomAccessFile, Z: Compressor>(
    file: &F,
    handle: &BlockHandle,
    verify: bool,
    compressor: &Option<Arc<Z>>,
) -> (read: status::Result<Vec<u8>>)
    ensures
        file.reliable() || read is Ok ==> stored_read_is(
            read_stored(file.contents(), *handle, verify, *compressor),
            read,
        ),
{
    if handle.size > usize::MAX as u64 {
        return Err(Status::corruption("Table: block size overflow"));
    }
    let n: usize = handle.size as usize;
    if n > usize::MAX - BLOCK_TRAILER_SIZE {
        return Err(Status::corruption("Table: block read size overflow"));
    }
    let total: usize = n + BLOCK_TRAILER_SIZE;
    let bytes = match file.read_at(handle.offset, total) {
        Err(error) => {
            return Err(error);
        },
        Ok(bytes) => bytes,
    };
    let ghost all = file.contents();
    let at: &[u8] = bytes.as_slice();
    let body: &[u8] = &at[0..n];
    let mut rest: &[u8] = &at[n..total];
    proof {
        let start = handle.offset as int;
        assert(body@ =~= all.subrange(start, start + n));
        assert(rest@ =~= all.skip(start + n).take(5));
        assert(rest@.subrange(1, 5) =~= all.skip(start + n).subrange(1, 5));
    }
    let trailer = match BlockTrailer::decode_from(&mut rest) {
        Err(error) => {
            return Err(error);
        },
        Ok(trailer) => trailer,
    };
    if verify {
        let one: [u8; 1] = [trailer.kind];
        assert(one@ =~= seq![trailer.kind]);
        let crc = crc32c::extend(crc32c::value(body), one.as_slice());
        if crc != trailer.crc {
            return Err(Status::corruption("Table: block checksum mismatch"));
        }
    }
    if trailer.kind == BlockTrailer::KIND_NO_COMPRESSION {
        return Ok(vstd::slice::slice_to_vec(body));
    }
    match compressor {
        None => Err(Status::corruption("Table: unsupported compression")),
        Some(c) => {
            if c.kind() == trailer.kind {
                c.decompress(body)
            } else {
                Err(Status::corruption("Table: unsupported compression"))
            }
        },
    }
}

/// A stored block in which one byte was changed is refused when its checksum is checked.
pub proof fn law_changed_block_is_refused<Z: Compressor>(
    file: Seq<u8>,
    handle: BlockHandle,
    compressor: Option<Arc<Z>>,
    kind: u8,
    body: Seq<u8>,
    at: int,
    byte: u8,
)
    requires
        handle.size == body.len(),
        handle.size + 5 <= usize::MAX,
        handle.offset + handle.size + 5 <= file.len(),
        0 <= at < body.len(),
        byte != body[at],
        file.subrange(handle.offset as int, handle.offset + handle.size + 5) == with_trailer(
            kind,
            body,
        ).update(at, byte),
    ensures
        read_stored(file, handle, true, compressor) == StoredRead::Corrupt(
            "Table: block checksum mismatch"@,
        ),
{
    let trailer = BlockTrailer { kind, crc: body_crc(kind, body) };
    let place = handle.offset as int;
    let size = handle.size as int;
    let whole = file.subrange(place, place + size + 5);
    let changed = body.update(at, byte);
    block_trailer::law_trailer_round_trip(trailer, file.skip(place + size + 5));
    assert(file.subrange(place, place + size) =~= whole.take(size));
    assert(whole.take(size) =~= changed);
    assert(whole.skip(size) =~= trailer.encoded());
    assert(file.skip(place + size) =~= whole.skip(size) + file.skip(place + size + 5));
    crc32c::law_changed_byte_is_noticed(0, changed, body, at);
    crc32c::law_extension_keeps_apart(
        crc32c::checksum(changed),
        crc32c::checksum(body),
        seq![kind],
    );
}

/// A handle that leads out of the file is refused, whatever the file holds.
pub proof fn law_block_lies_in_file<Z: Compressor>(
    file: Seq<u8>,
    handle: BlockHandle,
    verify: bool,
    compressor: Option<Arc<Z>>,
)
    requires
        handle.offset + handle.size + 5 > file.len(),
    ensures
        !(read_stored(file, handle, verify, compressor) is Block),
{
}

} // verus!
