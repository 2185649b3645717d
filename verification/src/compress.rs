//! Compression backends for every method the ZIP format accepts.

use flate2::{Compress, Compression, FlushCompress, Status};
use rayon::iter::{IntoParallelRefIterator, ParallelIterator};
use std::io::Write;
use vstd::prelude::*;
use xz2::stream::{LzmaOptions, Stream};
use xz2::write::XzEncoder;

use crate::cli::Method;

verus! {

/// Files at least this large are compressed block by block in parallel when
/// they are the only file of a run.
pub const PARALLEL_DEFLATE_THRESHOLD: u64 = 8_388_608;

/// Length of the blocks that parallel DEFLATE compresses independently.
pub const CHUNK: usize = 1_048_576;

/// Length of the header of an LZMA_ALONE stream: one byte of properties, four
/// of dictionary size and eight of uncompressed size.
pub const LZMA_ALONE_HEADER: usize = 13;

/// What a single compression call hands back.
///
/// `gp_bit1` tells whether bit 1 of the general-purpose flags must be set for
/// the entry; it is for LZMA, whose streams carry an end marker.
pub struct CompressOut {
    pub data: Vec<u8>,
    pub gp_bit1: bool,
}

/// Why a body could not be compressed.
#[derive(Copy, Clone, Debug, PartialEq, Eq, Structural)]
pub enum CodecError {
    /// The codec reported a failure.
    Codec,
    /// The LZMA encoder returned less than its own header.
    LzmaTooShort,
    /// A block of parallel DEFLATE does not fit into memory.
    OutOfRoom,
}

/// How far a DEFLATE call got.
#[derive(Copy, Clone, Debug, PartialEq, Eq, Structural)]
pub enum DeflateStatus {
    Progress,
    Stuck,
    StreamEnd,
}

/// Outcome of one DEFLATE call on a fresh stream.
pub struct DeflateStep {
    pub status: DeflateStatus,
    /// Bytes of the input that were taken in.
    pub consumed: usize,
    pub data: Vec<u8>,
}

/// A compressor of libdeflate, which is opaque here.
#[verifier::external_type_specification]
#[verifier::external_body]
pub struct ExCompressor(libdeflater::Compressor);

/// The error of libdeflate's compressor.
#[verifier::external_type_specification]
#[verifier::external_body]
pub struct ExCompressionError(libdeflater::CompressionError);

/// The error of the stream encoders.
#[verifier::external_type_specification]
#[verifier::external_body]
pub struct ExIoError(std::io::Error);

/// The error of flate2's streams.
#[verifier::external_type_specification]
#[verifier::external_body]
pub struct ExFlateError(flate2::CompressError);

/// The level that a libdeflate compressor was made with.
pub uninterp spec fn compressor_level(c: libdeflater::Compressor) -> int;

/// The bound that libdeflate gives for `n` bytes at a level.
pub uninterp spec fn libdeflate_bound(level: int, n: nat) -> nat;

/// What libdeflate writes for an input at a level, given room for `room`
/// bytes; `None` where that is too little.
pub uninterp spec fn libdeflate_stream(level: int, input: Seq<u8>, room: nat) -> Option<Seq<u8>>;

/// The data that a raw DEFLATE stream stands for.
pub uninterp spec fn inflated(stream: Seq<u8>) -> Option<Seq<u8>>;

/// What bzip2 makes of an input at a level.
pub uninterp spec fn bzip2_stream(input: Seq<u8>, level: u32) -> Seq<u8>;

/// The data that a bzip2 stream stands for.
pub uninterp spec fn bzip2_data(stream: Seq<u8>) -> Option<Seq<u8>>;

/// The .xz stream that liblzma makes of an input at a preset.
pub uninterp spec fn xz_stream(input: Seq<u8>, level: u32) -> Seq<u8>;

/// The data that an .xz stream stands for.
pub uninterp spec fn xz_data(stream: Seq<u8>) -> Option<Seq<u8>>;

/// The LZMA_ALONE stream that liblzma makes of an input at a preset.
pub uninterp spec fn lzma_alone_stream(input: Seq<u8>, level: u32) -> Seq<u8>;

/// The data that an LZMA_ALONE stream stands for.
pub uninterp spec fn lzma_alone_data(stream: Seq<u8>) -> Option<Seq<u8>>;

/// The zstd frame that libzstd makes of an input at a level.
pub uninterp spec fn zstd_stream(input: Seq<u8>, level: i32) -> Seq<u8>;

/// The data that a zstd frame stands for.
pub uninterp spec fn zstd_data(stream: Seq<u8>) -> Option<Seq<u8>>;

/// What one call on a fresh flate2 stream does with room for `room` bytes:
/// its status, how many bytes it took and what it wrote.
pub uninterp spec fn deflate_call(level: u32, input: Seq<u8>, finish: bool, room: nat) -> Option<
    (DeflateStatus, nat, Seq<u8>),
>;

/// Whether `stream` is a run of whole DEFLATE blocks that starts and ends on a
/// byte, refers to nothing before it and stands for `data`; `last` tells
/// whether the block that ends the stream is among them.
pub uninterp spec fn deflate_segment(stream: Seq<u8>, data: Seq<u8>, last: bool) -> bool;

/// `level`, moved into `lo..=hi`.
pub open spec fn clamped(level: u32, lo: u32, hi: u32) -> u32 {
    if level < lo {
        lo
    } else if level > hi {
        hi
    } else {
        level
    }
}

/// The ZIP method number of a method.
pub open spec fn method_number(method: Method) -> u16 {
    match method {
        Method::Store => 0,
        Method::Deflate => 8,
        Method::Bzip2 => 12,
        Method::Lzma => 14,
        Method::Zstd => 93,
        Method::Xz => 95,
    }
}

/// The version of the ZIP format that a method first appears in.
pub open spec fn version_of(method: Method) -> u16 {
    match method {
        Method::Store | Method::Deflate => 20,
        Method::Bzip2 => 46,
        Method::Lzma | Method::Xz | Method::Zstd => 63,
    }
}

/// An LZMA_ALONE stream as ZIP stores it: the SDK version (19.0), the length
/// of the properties, the properties with the dictionary size, and the coded
/// data. The uncompressed size is left out.
pub open spec fn lzma_body(alone: Seq<u8>) -> Seq<u8>
    recommends
        alone.len() >= LZMA_ALONE_HEADER,
{
    seq![0x13u8, 0u8, 5u8, 0u8] + alone.subrange(0, 5) + alone.subrange(
        LZMA_ALONE_HEADER as int,
        alone.len() as int,
    )
}

/// The uncompressed size of an LZMA_ALONE stream that ends in a marker.
pub open spec fn unknown_size() -> Seq<u8> {
    Seq::new(8, |i: int| 0xFFu8)
}

/// The LZMA_ALONE stream of a body that ZIP stores, for a stream that ends in
/// a marker.
pub open spec fn alone_of(body: Seq<u8>) -> Seq<u8> {
    body.subrange(4, 9) + unknown_size() + body.skip(9)
}

/// The data that a compressed body stands for.
pub open spec fn unpacked(method: Method, body: Seq<u8>) -> Option<Seq<u8>> {
    match method {
        Method::Store => Some(body),
        Method::Deflate => inflated(body),
        Method::Bzip2 => bzip2_data(body),
        Method::Lzma => lzma_alone_data(alone_of(body)),
        Method::Xz => xz_data(body),
        Method::Zstd => zstd_data(body),
    }
}

/// What becomes of the stream that a codec handed back.
pub open spec fn sealed(method: Method, stream: Seq<u8>) -> Result<Seq<u8>, CodecError> {
    if method == Method::Lzma {
        if stream.len() < LZMA_ALONE_HEADER {
            Err(CodecError::LzmaTooShort)
        } else {
            Ok(lzma_body(stream))
        }
    } else {
        Ok(stream)
    }
}

/// The stream that a method's codec makes of `input`, at the nearest level
/// that the codec has.
pub open spec fn codec_stream(method: Method, level: u32, input: Seq<u8>) -> Seq<u8> {
    match method {
        Method::Store => input,
        Method::Deflate => {
            let l = clamped(level, 0, 12) as int;
            libdeflate_stream(l, input, libdeflate_bound(l, input.len()))->0
        },
        Method::Bzip2 => bzip2_stream(input, clamped(level, 1, 9)),
        Method::Lzma => lzma_alone_stream(input, clamped(level, 0, 9)),
        Method::Xz => xz_stream(input, clamped(level, 0, 9)),
        Method::Zstd => zstd_stream(input, clamped(level, 1, 22) as i32),
    }
}

/// Whether a DEFLATE call left nothing undone: the last block ends the
/// stream, any other one took all input and still had room left after the
/// flush marker.
pub open spec fn call_complete(
    step: (DeflateStatus, nat, Seq<u8>),
    len: nat,
    last: bool,
    room: nat,
) -> bool {
    if last {
        step.0 == DeflateStatus::StreamEnd
    } else {
        step.0 == DeflateStatus::StreamEnd || (step.0 == DeflateStatus::Progress && step.1 >= len
            && step.2.len() < room)
    }
}

/// How much the room for a block of `len` bytes grows when it was too small.
pub open spec fn room_step(len: nat) -> nat {
    if len / 4 > 4096 {
        len / 4
    } else {
        4096
    }
}

/// The room that a block of `len` bytes is first given.
pub open spec fn first_room(len: nat) -> nat {
    len + len / 100 + 128
}

/// Largest room that is tried: no allocation is longer.
pub open spec fn room_limit() -> nat {
    (usize::MAX / 2) as nat
}

/// The stream of one block: that of the first call, with growing room, that
/// leaves nothing undone.
pub open spec fn block_stream(level: u32, block: Seq<u8>, last: bool, room: nat) -> Result<
    Seq<u8>,
    CodecError,
>
    decreases
            (if room > room_limit() {
                0
            } else {
                1 + room_limit() - room
            }),
{
    if room > room_limit() {
        Err(CodecError::OutOfRoom)
    } else {
        match deflate_call(level, block, last, room) {
            None => Err(CodecError::Codec),
            Some(step) => if call_complete(step, block.len(), last, room) {
                Ok(step.2)
            } else {
                block_stream(level, block, last, room + room_step(block.len()))
            },
        }
    }
}

/// Number of blocks that `len` bytes are cut into.
pub open spec fn block_count(len: nat) -> nat {
    ((len + CHUNK - 1) / CHUNK as int) as nat
}

/// Block `i` of `input`.
pub open spec fn block(input: Seq<u8>, i: int) -> Seq<u8> {
    input.subrange(
        i * CHUNK,
        if (i + 1) * CHUNK < input.len() {
            (i + 1) * CHUNK
        } else {
            input.len() as int
        },
    )
}

/// The stream of block `i` out of all blocks of `input`.
pub open spec fn block_result(level: u32, input: Seq<u8>, i: int) -> Result<
    Seq<u8>,
    CodecError,
> {
    block_stream(
        clamped(level, 0, 9),
        block(input, i),
        i + 1 == block_count(input.len()),
        first_room(block(input, i).len()),
    )
}

/// The streams of the first `n` blocks, one after the other; the error of the
/// first block that has one.
pub open spec fn parallel_stream(level: u32, input: Seq<u8>, n: nat) -> Result<Seq<u8>, CodecError>
    decreases n,
{
    if n == 0 {
        Ok(Seq::empty())
    } else {
        match parallel_stream(level, input, (n - 1) as nat) {
            Err(e) => Err(e),
            Ok(before) => match block_result(level, input, n - 1) {
                Err(e) => Err(e),
                Ok(s) => Ok(before + s),
            },
        }
    }
}

/// Whether `stream` is a segment for `data` that goes on where an open run of
/// segments stops, and with the end of the stream makes it a whole one.
pub open spec fn segment_joins(stream: Seq<u8>, data: Seq<u8>, last: bool) -> bool {
    &&& deflate_segment(stream, data, last)
    &&& last ==> inflated(stream) == Some(data)
    &&& forall|s: Seq<u8>, d: Seq<u8>|
        #![trigger deflate_segment(s, d, false), s + stream]
        deflate_segment(s, d, false) ==> deflate_segment(s + stream, d + data, last) && (last
            ==> inflated(s + stream) == Some(d + data))
}

/// Makes a `libdeflater::Compressor` for a level that `CompressionLvl::new`
/// accepts; the compressor keeps that level.
#[verifier::external_body]
fn new_compressor(level: i32) -> (c: libdeflater::Compressor)
    requires
        0 <= level <= 12,
    ensures
        compressor_level(c) == level,
{
    libdeflater::Compressor::new(libdeflater::CompressionLvl::new(level).unwrap())
}

/// `Compressor::deflate_compress_bound` for the length of an input: the same
/// bound whenever it is asked with the same level and length, and never below
/// the length itself.
#[verifier::external_body]
fn compress_bound(c: &mut libdeflater::Compressor, input: &[u8]) -> (bound: usize)
    ensures
        compressor_level(*final(c)) == compressor_level(*old(c)),
        bound == libdeflate_bound(compressor_level(*old(c)), input@.len()),
        bound >= input@.len(),
{
    c.deflate_compress_bound(input.len())
}

/// `Compressor::deflate_compress`: writes a DEFLATE stream that stands for the
/// input to the front of `out` and returns its length. It fails only where
/// the stream does not fit, which the bound for the input's length rules out.
#[verifier::external_body]
fn deflate_compress(c: &mut libdeflater::Compressor, input: &[u8], out: &mut Vec<u8>) -> (r: Result<
    usize,
    libdeflater::CompressionError,
>)
    ensures
        compressor_level(*final(c)) == compressor_level(*old(c)),
        final(out)@.len() == old(out)@.len(),
        r is Ok <==> libdeflate_stream(
            compressor_level(*old(c)),
            input@,
            old(out)@.len(),
        ) is Some,
        r is Ok ==> r->Ok_0 <= final(out)@.len() && libdeflate_stream(
            compressor_level(*old(c)),
            input@,
            old(out)@.len(),
        ) == Some(final(out)@.subrange(0, r->Ok_0 as int)) && inflated(
            final(out)@.subrange(0, r->Ok_0 as int),
        ) == Some(input@),
        old(out)@.len() >= libdeflate_bound(compressor_level(*old(c)), input@.len()) ==> r is Ok,
{
    c.deflate_compress(input, &mut out[..])
}

/// `bzip2::write::BzEncoder` over a vector, all of the input written at once.
/// The encoder returns no error of its own, and writing to a vector has none.
/// As documented, a decoder gets the input back from the stream.
#[verifier::external_body]
fn bzip2_encode(input: &[u8], level: u32) -> (r: Result<Vec<u8>, std::io::Error>)
    requires
        1 <= level <= 9,
    ensures
        r is Ok,
        r->Ok_0@ == bzip2_stream(input@, level),
        bzip2_data(r->Ok_0@) == Some(input@),
{
    let mut enc = bzip2::write::BzEncoder::new(Vec::new(), bzip2::Compression::new(level));
    enc.write_all(input)?;
    enc.finish()
}

/// `xz2::write::XzEncoder` over a vector, all of the input written at once.
/// Where it succeeds the stream depends on the input and the level alone and,
/// as documented, a decoder gets the input back from it. When liblzma fails,
/// for want of memory say, is left unsaid.
#[verifier::external_body]
fn xz_encode(input: &[u8], level: u32) -> (r: Result<Vec<u8>, std::io::Error>)
    requires
        level <= 9,
    ensures
        r is Ok ==> r->Ok_0@ == xz_stream(input@, level) && xz_data(r->Ok_0@) == Some(input@),
{
    let mut enc = XzEncoder::new(Vec::new(), level);
    enc.write_all(input)?;
    enc.finish()
}

/// `xz2`'s LZMA_ALONE encoder over a vector, all of the input written at once.
/// Where it succeeds the stream depends on the input and the level alone, a
/// decoder gets the input back from it, and its header is complete and leaves
/// the size open. When liblzma fails, for want of memory say, is left unsaid.
#[verifier::external_body]
fn lzma_alone_encode(input: &[u8], level: u32) -> (r: Result<Vec<u8>, std::io::Error>)
    requires
        level <= 9,
    ensures
        r is Ok ==> r->Ok_0@ == lzma_alone_stream(input@, level) && lzma_alone_data(r->Ok_0@)
            == Some(input@),
        r is Ok ==> r->Ok_0@.len() >= LZMA_ALONE_HEADER && r->Ok_0@.subrange(5, 13)
            == unknown_size(),
{
    let stream = Stream::new_lzma_encoder(&LzmaOptions::new_preset(level)?)?;
    let mut enc = XzEncoder::new_stream(Vec::new(), stream);
    enc.write_all(input)?;
    enc.finish()
}

/// `zstd::stream::encode_all`. Where it succeeds the frame depends on the
/// input and the level alone, and a decoder gets the input back from it. When
/// libzstd fails, for want of memory say, is left unsaid.
#[verifier::external_body]
fn zstd_encode(input: &[u8], level: i32) -> (r: Result<Vec<u8>, std::io::Error>)
    requires
        1 <= level <= 22,
    ensures
        r is Ok ==> r->Ok_0@ == zstd_stream(input@, level) && zstd_data(r->Ok_0@) == Some(input@),
{
    zstd::stream::encode_all(input, level)
}

/// One `flate2::Compress::compress` call on a fresh raw stream, with a sync
/// flush or the end of the stream behind the input and room for `room` bytes
/// of output. It takes no more than the input and writes no more than fits. The
/// stream ends only where its end was asked for. Where nothing is left undone,
/// the output is a segment for the input: nothing came before it, and the
/// flush or the end completes its last block. As segments end on a byte and
/// refer to nothing before them, it continues any open run of them, and with
/// its end the run is a whole DEFLATE stream.
#[verifier::external_body]
fn deflate_once(level: u32, input: &[u8], finish: bool, room: usize) -> (r: Result<
    DeflateStep,
    flate2::CompressError,
>)
    requires
        level <= 9,
        room <= room_limit(),
    ensures
        r is Err <==> deflate_call(level, input@, finish, room as nat) is None,
        r is Ok ==> deflate_call(level, input@, finish, room as nat) == Some(
            (r->Ok_0.status, r->Ok_0.consumed as nat, r->Ok_0.data@),
        ) && r->Ok_0.consumed <= input@.len() && r->Ok_0.data@.len() <= room,
        r is Ok && r->Ok_0.status == DeflateStatus::StreamEnd ==> finish,
        r is Ok && call_complete(
            (r->Ok_0.status, r->Ok_0.consumed as nat, r->Ok_0.data@),
            input@.len(),
            finish,
            room as nat,
        ) ==> deflate_segment(r->Ok_0.data@, input@, finish) && (finish ==> inflated(r->Ok_0.data@)
            == Some(input@)) && forall|s: Seq<u8>, d: Seq<u8>|
            #![trigger deflate_segment(s, d, false), s + r->Ok_0.data@]
            deflate_segment(s, d, false) ==> deflate_segment(
                s + r->Ok_0.data@,
                d + input@,
                finish,
            ) && (finish ==> inflated(s + r->Ok_0.data@) == Some(d + input@)),
{
    let mut z = Compress::new(Compression::new(level), false);
    let mut data = vec![0u8; room];
    let flush = match finish {
        true => FlushCompress::Finish,
        false => FlushCompress::Sync,
    };
    let status = match z.compress(input, &mut data, flush)? {
        Status::Ok => DeflateStatus::Progress,
        Status::BufError => DeflateStatus::Stuck,
        Status::StreamEnd => DeflateStatus::StreamEnd,
    };
    data.truncate(z.total_out() as usize);
    Ok(DeflateStep { status, consumed: z.total_in() as usize, data })
}

/// rayon's `par_iter().map(..).collect()`: what `deflate_block` returns on each
/// block, in the order of the blocks.
#[verifier::external_body]
fn deflate_blocks(blocks: &Vec<(&[u8], bool)>, level: u32) -> (r: Vec<
    Result<Vec<u8>, CodecError>,
>)
    requires
        forall|i: int|
            0 <= i < blocks@.len() ==> call_requires(
                deflate_block,
                (#[trigger] blocks@[i].0, level, blocks@[i].1),
            ),
    ensures
        r@.len() == blocks@.len(),
        forall|i: int|
            0 <= i < blocks@.len() ==> call_ensures(
                deflate_block,
                (blocks@[i].0, level, blocks@[i].1),
                #[trigger] r@[i],
            ),
{
    blocks.par_iter().map(|b| deflate_block(b.0, level, b.1)).collect()
}

fn clamp_level(level: u32, lo: u32, hi: u32) -> (r: u32)
    requires
        lo <= hi,
    ensures
        r == clamped(level, lo, hi),
        lo <= r <= hi,
{
    if level < lo {
        lo
    } else if level > hi {
        hi
    } else {
        level
    }
}

/// The state that a worker keeps from one entry to the next: a buffer for
/// output and a compressor.
pub struct Scratch {
    pub out: Vec<u8>,
    pub deflate: Option<libdeflater::Compressor>,
    pub deflate_level: i32,
}

impl Scratch {
    /// A kept compressor works at the level that stands beside it.
    pub open spec fn wf(&self) -> bool {
        self.deflate is Some ==> compressor_level(self.deflate->0) == self.deflate_level
    }

    pub fn new() -> (s: Self)
        ensures
            s.wf(),
            s.out@.len() == 0,
            s.deflate is None,
            s.deflate_level == -1,
    {
        Scratch { out: Vec::new(), deflate: None, deflate_level: -1 }
    }

    /// The kept compressor, made anew where the level has changed.
    fn get_deflate(&mut self, level: u32) -> (c: &mut libdeflater::Compressor)
        requires
            old(self).wf(),
        ensures
            compressor_level(*c) == clamped(level, 0, 12),
            final(self).out == old(self).out,
            final(self).deflate == Some(*final(c)),
            final(self).deflate_level == clamped(level, 0, 12),
    {
        let lvl: i32 = clamp_level(level, 0, 12) as i32;
        if self.deflate.is_none() || self.deflate_level != lvl {
            self.deflate = Some(new_compressor(lvl));
            self.deflate_level = lvl;
        }
        self.deflate.as_mut().unwrap()
    }
}

/// Compresses one block: with more and more room, until a call leaves nothing
/// undone.
pub fn deflate_block(block: &[u8], level: u32, last: bool) -> (r: Result<Vec<u8>, CodecError>)
    requires
        level <= 9,
        block@.len() <= CHUNK,
    ensures
        match block_stream(level, block@, last, first_room(block@.len())) {
            Ok(s) => r is Ok && r->Ok_0@ == s,
            Err(e) => r is Err && r->Err_0 == e,
        },
        r is Ok ==> segment_joins(r->Ok_0@, block@, last),
{
    let len: usize = block.len();
    let mut room: usize = len + len / 100 + 128;
    let step: usize = if len / 4 > 4096 {
        len / 4
    } else {
        4096
    };
    let limit: usize = usize::MAX / 2;
    while room <= limit
        invariant
            level <= 9,
            len == block@.len(),
            len <= CHUNK,
            step == room_step(block@.len()),
            limit == room_limit(),
            block_stream(level, block@, last, room as nat) == block_stream(
                level,
                block@,
                last,
                first_room(block@.len()),
            ),
        decreases limit + CHUNK - room,
    {
        match deflate_once(level, block, last, room) {
            Err(_) => {
                return Err(CodecError::Codec);
            },
            Ok(out) => {
                let complete = if last {
                    out.status == DeflateStatus::StreamEnd
                } else {
                    out.status == DeflateStatus::StreamEnd || (out.status == DeflateStatus::Progress
                        && out.consumed >= len && out.data.len() < room)
                };
                if complete {
                    return Ok(out.data);
                }
            },
        }
        room = room + step;
    }
    Err(CodecError::OutOfRoom)
}

/// Parallel-block DEFLATE: the input is cut into blocks of one mebibyte, each
/// is compressed on its own and ends in a sync-flush marker, and the streams
/// one after the other make up a single DEFLATE stream.
pub fn compress_parallel_deflate(input: &[u8], level: u32) -> (r: Result<CompressOut, CodecError>)
    ensures
        match parallel_stream(level, input@, block_count(input@.len())) {
            Ok(s) => r is Ok && r->Ok_0.data@ == s && !r->Ok_0.gp_bit1,
            Err(e) => r is Err && r->Err_0 == e,
        },
        r is Ok && input@.len() > 0 ==> inflated(r->Ok_0.data@) == Some(input@),
{
    let lvl: u32 = clamp_level(level, 0, 9);
    let blocks = cut_blocks(input);
    let ghost n = block_count(input@.len());
    let parts = deflate_blocks(&blocks, lvl);
    let mut data: Vec<u8> = Vec::new();
    let mut i: usize = 0;
    while i < parts.len()
        invariant
            0 <= i <= parts@.len(),
            forall|k: int|
                0 <= k < n && (#[trigger] parts@[k]) is Ok ==> segment_joins(
                    parts@[k]->Ok_0@,
                    block(input@, k),
                    k + 1 == n,
                ),
            i == 0 ==> data@.len() == 0,
            0 < i < n ==> deflate_segment(data@, first_blocks(input@, i as nat), false),
            0 < i == n ==> inflated(data@) == Some(first_blocks(input@, n)),
            parts@.len() == n,
            n == block_count(input@.len()),
            forall|k: int|
                0 <= k < n ==> match block_result(level, input@, k) {
                    Ok(s) => (#[trigger] parts@[k]) is Ok && parts@[k]->Ok_0@ == s,
                    Err(e) => parts@[k] is Err && parts@[k]->Err_0 == e,
                },
            parallel_stream(level, input@, i as nat) == Ok::<_, CodecError>(data@),
        decreases parts@.len() - i,
    {
        assert(parallel_stream(level, input@, (i + 1) as nat) == match block_result(
            level,
            input@,
            i as int,
        ) {
            Err(e) => Err::<_, CodecError>(e),
            Ok(s) => Ok(data@ + s),
        });
        match &parts[i] {
            Err(e) => {
                proof {
                    lemma_first_error(level, input@, (i + 1) as nat, n);
                }
                return Err(*e);
            },
            Ok(part) => {
                let ghost before = data@;
                data.extend_from_slice(part.as_slice());
                assert(data@ =~= before + part@);
                proof {
                    let b = block(input@, i as int);
                    let blocks_before = first_blocks(input@, i as nat);
                    assert(first_blocks(input@, (i + 1) as nat) == blocks_before + b);
                    if i == 0 {
                        assert(data@ =~= part@);
                        assert(blocks_before + b =~= b);
                    } else {
                        assert(deflate_segment(before, blocks_before, false));
                    }
                }
            },
        }
        i = i + 1;
    }
    proof {
        law_blocks_make_up_the_input(input@);
    }
    Ok(CompressOut { data, gp_bit1: false })
}

/// The blocks of an input in order, the last one marked.
fn cut_blocks(input: &[u8]) -> (blocks: Vec<(&[u8], bool)>)
    ensures
        blocks@.len() == block_count(input@.len()),
        forall|i: int|
            0 <= i < blocks@.len() ==> (#[trigger] blocks@[i]).0@ == block(input@, i) && blocks@[i].1
                == (i + 1 == blocks@.len()) && blocks@[i].0@.len() <= CHUNK,
{
    let len: usize = input.len();
    let mut blocks: Vec<(&[u8], bool)> = Vec::new();
    let mut at: usize = 0;
    while at < len
        invariant
            len == input@.len(),
            at <= len,
            at == len || at == blocks@.len() * CHUNK,
            at == len ==> blocks@.len() == block_count(len as nat),
            forall|i: int|
                0 <= i < blocks@.len() ==> (#[trigger] blocks@[i]).0@ == block(input@, i)
                    && blocks@[i].1 == (i + 1 == block_count(len as nat)) && blocks@[i].0@.len()
                    <= CHUNK,
        decreases len - at,
    {
        let end: usize = if len - at > CHUNK {
            at + CHUNK
        } else {
            len
        };
        blocks.push((&input[at..end], end == len));
        at = end;
    }
    blocks
}

/// The error of an early block is the error of the whole.
proof fn lemma_first_error(level: u32, input: Seq<u8>, i: nat, n: nat)
    requires
        i <= n,
        parallel_stream(level, input, i) is Err,
    ensures
        parallel_stream(level, input, n) == parallel_stream(level, input, i),
    decreases n - i,
{
    if i < n {
        lemma_first_error(level, input, i, (n - 1) as nat);
    }
}

/// The ZIP method number.
pub fn method_id(method: Method) -> (id: u16)
    ensures
        id == method_number(method),
{
    match method {
        Method::Store => 0,
        Method::Deflate => 8,
        Method::Bzip2 => 12,
        Method::Lzma => 14,
        Method::Zstd => 93,
        Method::Xz => 95,
    }
}

/// The lowest "version needed to extract" that a method may claim.
pub fn version_needed(method: Method) -> (v: u16)
    ensures
        v == version_of(method),
{
    match method {
        Method::Store | Method::Deflate => 20,
        Method::Bzip2 => 46,
        Method::Lzma => 63,
        Method::Zstd => 63,
        Method::Xz => 63,
    }
}

/// The body that ZIP stores for an LZMA_ALONE stream; an error where the
/// stream is shorter than its own header.
pub fn lzma_for_zip(alone: &[u8]) -> (r: Result<Vec<u8>, CodecError>)
    ensures
        match sealed(Method::Lzma, alone@) {
            Ok(s) => r is Ok && r->Ok_0@ == s,
            Err(e) => r is Err && r->Err_0 == e,
        },
{
    if alone.len() < LZMA_ALONE_HEADER {
        return Err(CodecError::LzmaTooShort);
    }
    let mut out: Vec<u8> = Vec::new();
    out.push(0x13);
    out.push(0);
    out.push(5);
    out.push(0);
    out.extend_from_slice(&alone[0..5]);
    out.extend_from_slice(&alone[LZMA_ALONE_HEADER..alone.len()]);
    assert(out@ =~= lzma_body(alone@));
    Ok(out)
}

/// Turns what a codec handed back into the body of an entry.
pub fn seal(method: Method, stream: Result<Vec<u8>, std::io::Error>) -> (r: Result<
    CompressOut,
    CodecError,
>)
    ensures
        stream is Err ==> r is Err && r->Err_0 == CodecError::Codec,
        stream is Ok ==> match sealed(method, stream->Ok_0@) {
            Ok(s) => r is Ok && r->Ok_0.data@ == s && r->Ok_0.gp_bit1 == (method == Method::Lzma),
            Err(e) => r is Err && r->Err_0 == e,
        },
{
    match stream {
        Err(_) => Err(CodecError::Codec),
        Ok(data) => {
            if method == Method::Lzma {
                match lzma_for_zip(data.as_slice()) {
                    Err(e) => Err(e),
                    Ok(body) => Ok(CompressOut { data: body, gp_bit1: true }),
                }
            } else {
                Ok(CompressOut { data, gp_bit1: false })
            }
        },
    }
}

/// Compresses `input` by a method, at the level of that method nearest to the
/// given one.
///
/// Stored and deflated bodies take over the buffer of the scratch space. It is
/// empty after every call. The compressor of the scratch space serves deflated
/// bodies and is kept for the next one.
pub fn compress(method: Method, level: u32, input: &[u8], scratch: &mut Scratch) -> (r: Result<
    CompressOut,
    CodecError,
>)
    requires
        old(scratch).wf(),
    ensures
        final(scratch).wf(),
        r is Ok ==> sealed(method, codec_stream(method, level, input@)) == Ok::<_, CodecError>(
            r->Ok_0.data@,
        ) && r->Ok_0.gp_bit1 == (method == Method::Lzma),
        r is Err ==> r->Err_0 == CodecError::Codec || sealed(
            method,
            codec_stream(method, level, input@),
        ) == Err::<Seq<u8>, _>(r->Err_0),
        method == Method::Store || method == Method::Deflate || method == Method::Bzip2 ==> r is Ok,
        r is Ok ==> unpacked(method, r->Ok_0.data@) == Some(input@),
        final(scratch).out@ == Seq::<u8>::empty(),
        method == Method::Deflate ==> final(scratch).deflate is Some,
        method == Method::Deflate ==> final(scratch).deflate_level == clamped(level, 0, 12),
        method != Method::Deflate ==> final(scratch).deflate == old(scratch).deflate,
        method != Method::Deflate ==> final(scratch).deflate_level == old(scratch).deflate_level,
{
    let mut buf: Vec<u8> = Vec::new();
    std::mem::swap(&mut buf, &mut scratch.out);
    match method {
        Method::Store => {
            buf.clear();
            buf.extend_from_slice(input);
            assert(buf@ =~= input@);
            Ok(CompressOut { data: buf, gp_bit1: false })
        },
        Method::Deflate => {
            let c = scratch.get_deflate(level);
            let bound: usize = compress_bound(c, input);
            buf.resize(bound, 0);
            match deflate_compress(c, input, &mut buf) {
                Err(_) => Err(CodecError::Codec),
                Ok(n) => {
                    buf.truncate(n);
                    Ok(CompressOut { data: buf, gp_bit1: false })
                },
            }
        },
        Method::Bzip2 => seal(method, bzip2_encode(input, clamp_level(level, 1, 9))),
        Method::Lzma => {
            let alone = lzma_alone_encode(input, clamp_level(level, 0, 9));
            proof {
                if alone is Ok {
                    law_lzma_body_keeps_stream(alone->Ok_0@);
                }
            }
            seal(method, alone)
        },
        Method::Xz => seal(method, xz_encode(input, clamp_level(level, 0, 9))),
        Method::Zstd => seal(method, zstd_encode(input, clamp_level(level, 1, 22) as i32)),
    }
}

/// The first `n` blocks of an input, one after the other.
pub open spec fn first_blocks(input: Seq<u8>, n: nat) -> Seq<u8>
    decreases n,
{
    if n == 0 {
        Seq::empty()
    } else {
        first_blocks(input, (n - 1) as nat) + block(input, n - 1)
    }
}

/// The blocks of an input make up the input: no byte is left out, none is
/// taken twice.
pub proof fn law_blocks_make_up_the_input(input: Seq<u8>)
    ensures
        first_blocks(input, block_count(input.len())) == input,
{
    let n = block_count(input.len());
    lemma_first_blocks(input, n);
    assert(input.take(input.len() as int) =~= input);
}

proof fn lemma_first_blocks(input: Seq<u8>, n: nat)
    requires
        n <= block_count(input.len()),
    ensures
        first_blocks(input, n) == input.take(
            if n * CHUNK < input.len() {
                n * CHUNK
            } else {
                input.len() as int
            },
        ),
    decreases n,
{
    if n > 0 {
        lemma_first_blocks(input, (n - 1) as nat);
        assert((n - 1) * CHUNK < input.len());
        assert(first_blocks(input, n) =~= input.take(
            if n * CHUNK < input.len() {
                n * CHUNK
            } else {
                input.len() as int
            },
        ));
    } else {
        assert(first_blocks(input, n) =~= input.take(0));
    }
}

/// A method can be told from its number.
pub proof fn law_method_numbers_differ(a: Method, b: Method)
    ensures
        method_number(a) == method_number(b) <==> a == b,
{
}

/// The body that ZIP stores for an LZMA_ALONE stream without a size leads back
/// to the stream.
pub proof fn law_lzma_body_keeps_stream(alone: Seq<u8>)
    requires
        alone.len() >= LZMA_ALONE_HEADER,
    ensures
        lzma_body(alone).len() == alone.len() - 4,
        alone.subrange(5, 13) == unknown_size() ==> alone_of(lzma_body(alone)) == alone,
{
    let body = lzma_body(alone);
    assert(body.subrange(4, 9) =~= alone.take(5));
    assert(body.skip(9) =~= alone.skip(LZMA_ALONE_HEADER as int));
    if alone.subrange(5, 13) == unknown_size() {
        assert(alone =~= alone.take(5) + alone.subrange(5, 13) + alone.skip(
            LZMA_ALONE_HEADER as int,
        ));
    }
}

/// The calls that are made on one block, from a first room on: every call has
/// the level that was asked for and the whole block, and `room` is where they
/// end. What comes out is what the last of them gave. A call before it gave
/// something but left something undone.
pub proof fn law_block_is_one_call(level: u32, data: Seq<u8>, last: bool, from: nat) -> (room: nat)
    ensures
        ({
            let step = if data.len() / 4 > 4096 {
                data.len() / 4
            } else {
                4096
            };
            let r = block_stream(level, data, last, from);
            let end = deflate_call(level, data, last, room);
            &&& room >= from && (room - from) % (step as int) == 0
            &&& forall|k: nat|
                from <= k < room && (k - from) % (step as int) == 0 ==> {
                    &&& k <= usize::MAX / 2
                    &&& (#[trigger] deflate_call(level, data, last, k)) is Some
                    &&& {
                        let c = deflate_call(level, data, last, k)->0;
                        c.0 != DeflateStatus::StreamEnd && (last || c.0 == DeflateStatus::Stuck
                            || c.1 < data.len() || c.2.len() >= k)
                    }
                }
            &&& r matches Ok(s) ==> {
                &&& room <= usize::MAX / 2
                &&& end matches Some(c) && c.2 == s && (c.0 == DeflateStatus::StreamEnd || (!last
                    && c.0 == DeflateStatus::Progress && c.1 >= data.len() && c.2.len() < room))
            }
            &&& r matches Err(e) ==> {
                ||| e == CodecError::OutOfRoom && room > usize::MAX / 2
                ||| e == CodecError::Codec && room <= usize::MAX / 2 && end is None
            }
        }),
    decreases
            (if from > room_limit() {
                0
            } else {
                1 + room_limit() - from
            }),
{
    let step = room_step(data.len());
    if from > room_limit() {
        assert(0int % (step as int) == 0) by (nonlinear_arith)
            requires
                step > 0,
        ;
        from
    } else {
        match deflate_call(level, data, last, from) {
            None => {
                assert(0int % (step as int) == 0) by (nonlinear_arith)
                    requires
                        step > 0,
                ;
                from
            },
            Some(c) => if call_complete(c, data.len(), last, from) {
                assert(0int % (step as int) == 0) by (nonlinear_arith)
                    requires
                        step > 0,
                ;
                from
            } else {
                let room = law_block_is_one_call(level, data, last, from + step);
                vstd::arithmetic::div_mod::lemma_mod_add_multiples_vanish(
                    room - from - step,
                    step as int,
                );
                assert forall|k: nat|
                    from <= k < room && (k - from) % (step as int) == 0 implies {
                    &&& k <= usize::MAX / 2
                    &&& (#[trigger] deflate_call(level, data, last, k)) is Some
                    &&& {
                        let c = deflate_call(level, data, last, k)->0;
                        c.0 != DeflateStatus::StreamEnd && (last || c.0 == DeflateStatus::Stuck
                            || c.1 < data.len() || c.2.len() >= k)
                    }
                } by {
                    if k > from {
                        if k < from + step {
                            vstd::arithmetic::div_mod::lemma_small_mod(
                                (k - from) as nat,
                                step,
                            );
                        }
                        vstd::arithmetic::div_mod::lemma_mod_add_multiples_vanish(
                            k - from - step,
                            step as int,
                        );
                    }
                }
                room
            },
        }
    }
}

/// The blocks of an input are its bytes from one mebibyte to the next, and the
/// last one is what is left; none is empty. Each is compressed at the level
/// that was asked for, or at 9 where that is above 9, and the last one alone
/// ends the stream.
pub proof fn law_blocks_are_cut_and_compressed(level: u32, input: Seq<u8>, i: int)
    requires
        0 <= i,
        i * 1_048_576 < input.len(),
    ensures
        ({
            let lo = i * 1_048_576;
            let hi = if input.len() - lo > 1_048_576 {
                lo + 1_048_576
            } else {
                input.len() as int
            };
            let data = input.subrange(lo, hi);
            let used = if level <= 9 {
                level
            } else {
                9
            };
            &&& block(input, i) == data
            &&& (i + 1 == block_count(input.len()) <==> hi == input.len())
            &&& i < block_count(input.len())
            &&& first_room(data.len()) == (hi - lo) + (hi - lo) / 100 + 128
            &&& block_result(level, input, i) == block_stream(
                used,
                data,
                hi == input.len(),
                first_room(data.len()),
            )
        }),
{
    assert(CHUNK == 1_048_576);
}

/// How many blocks there are.
pub proof fn law_block_count(len: nat)
    ensures
        block_count(len) * 1_048_576 >= len,
        block_count(len) > 0 ==> (block_count(len) - 1) * 1_048_576 < len,
{
    assert(CHUNK == 1_048_576);
}

/// The stream of parallel DEFLATE is the streams of its blocks, from cut to
/// cut. It fails where a block does, with the error of the first that does.
pub proof fn law_parallel_stream_joins_blocks(level: u32, input: Seq<u8>, n: nat) -> (cuts: Seq<int>)
    ensures
        match parallel_stream(level, input, n) {
            Ok(s) => {
                &&& cuts.len() == n + 1
                &&& cuts[0] == 0 && cuts[n as int] == s.len()
                &&& forall|i: int|
                    0 <= i < n ==> {
                        &&& 0 <= #[trigger] cuts[i] <= cuts[i + 1] <= s.len()
                        &&& block_result(level, input, i) == Ok::<Seq<u8>, CodecError>(
                            s.subrange(cuts[i], cuts[i + 1]),
                        )
                    }
            },
            Err(e) => {
                &&& 0 < cuts.len() <= n
                &&& block_result(level, input, cuts.len() - 1) == Err::<Seq<u8>, CodecError>(e)
                &&& forall|i: int|
                    0 <= i < cuts.len() - 1 ==> (#[trigger] block_result(level, input, i)) is Ok
            },
        },
    decreases n,
{
    if n == 0 {
        seq![0int]
    } else {
        let before = law_parallel_stream_joins_blocks(level, input, (n - 1) as nat);
        match parallel_stream(level, input, (n - 1) as nat) {
            Err(_) => before,
            Ok(b) => match block_result(level, input, n - 1) {
                Ok(s) => {
                    let cuts = before.push((b + s).len() as int);
                    assert forall|i: int| 0 <= i < n implies {
                        &&& 0 <= #[trigger] cuts[i] <= cuts[i + 1] <= (b + s).len()
                        &&& block_result(level, input, i) == Ok::<Seq<u8>, CodecError>(
                            (b + s).subrange(cuts[i], cuts[i + 1]),
                        )
                    } by {
                        if i < n - 1 {
                            assert(before[i] == cuts[i] && before[i + 1] == cuts[i + 1]);
                            assert((b + s).subrange(cuts[i], cuts[i + 1]) =~= b.subrange(
                                before[i],
                                before[i + 1],
                            ));
                        } else {
                            assert((b + s).subrange(cuts[i], cuts[i + 1]) =~= s);
                        }
                    }
                    cuts
                },
                Err(_) => {
                    assert forall|i: int| 0 <= i < n - 1 implies (
                    #[trigger] block_result(level, input, i)) is Ok by {
                        assert(before[i] <= before[i + 1]);
                    }
                    before
                },
            },
        }
    }
}

/// A level within a codec's range is the level used; one outside it is moved
/// to the nearest end.
pub proof fn law_levels_are_kept_in_range(level: u32, lo: u32, hi: u32)
    requires
        lo <= hi,
    ensures
        lo <= level <= hi ==> clamped(level, lo, hi) == level,
        level < lo ==> clamped(level, lo, hi) == lo,
        level > hi ==> clamped(level, lo, hi) == hi,
{
}

/// What each codec is called with: the whole input, and the level that was
/// asked for as far as its range allows.
pub proof fn law_codec_calls(level: u32, input: Seq<u8>)
    ensures
        codec_stream(Method::Store, level, input) == input,
        level <= 12 ==> libdeflate_stream(
            level as int,
            input,
            libdeflate_bound(level as int, input.len()),
        ) is Some ==> libdeflate_stream(
            level as int,
            input,
            libdeflate_bound(level as int, input.len()),
        ) == Some(codec_stream(Method::Deflate, level, input)),
        level > 12 ==> codec_stream(Method::Deflate, level, input) == codec_stream(
            Method::Deflate,
            12,
            input,
        ),
        1 <= level <= 9 ==> codec_stream(Method::Bzip2, level, input) == bzip2_stream(input, level),
        level == 0 ==> codec_stream(Method::Bzip2, level, input) == bzip2_stream(input, 1),
        level > 9 ==> codec_stream(Method::Bzip2, level, input) == bzip2_stream(input, 9),
        level <= 9 ==> codec_stream(Method::Lzma, level, input) == lzma_alone_stream(input, level),
        level > 9 ==> codec_stream(Method::Lzma, level, input) == lzma_alone_stream(input, 9),
        level <= 9 ==> codec_stream(Method::Xz, level, input) == xz_stream(input, level),
        level > 9 ==> codec_stream(Method::Xz, level, input) == xz_stream(input, 9),
        1 <= level <= 22 ==> codec_stream(Method::Zstd, level, input) == zstd_stream(
            input,
            level as i32,
        ),
        level == 0 ==> codec_stream(Method::Zstd, level, input) == zstd_stream(input, 1),
        level > 22 ==> codec_stream(Method::Zstd, level, input) == zstd_stream(input, 22),
{
}

/// The body of an entry is the codec's stream, byte for byte, but under LZMA.
/// There it is four bytes of the ZIP format, the five bytes of properties that
/// the stream starts with, and what stands behind the eight bytes of size.
pub proof fn law_bodies_hold_the_stream(method: Method, stream: Seq<u8>)
    ensures
        method != Method::Lzma ==> sealed(method, stream) == Ok::<Seq<u8>, CodecError>(stream),
        method == Method::Lzma && stream.len() < 13 ==> sealed(method, stream) == Err::<
            Seq<u8>,
            CodecError,
        >(CodecError::LzmaTooShort),
        method == Method::Lzma && stream.len() >= 13 ==> {
            let b = lzma_body(stream);
            &&& sealed(method, stream) == Ok::<Seq<u8>, CodecError>(b)
            &&& b.len() == stream.len() - 4
            &&& b[0] == 0x13 && b[1] == 0 && b[2] == 5 && b[3] == 0
            &&& forall|i: int| 4 <= i < 9 ==> #[trigger] b[i] == stream[i - 4]
            &&& forall|i: int| 9 <= i < b.len() ==> #[trigger] b[i] == stream[i + 4]
        },
{
}

/// What a body holds is told by the decoder of its own method. For LZMA the
/// decoder gets the properties, a size that is unknown, and the rest.
pub proof fn law_bodies_are_unpacked(body: Seq<u8>, alone: Seq<u8>)
    ensures
        unpacked(Method::Store, body) == Some(body),
        unpacked(Method::Deflate, body) == inflated(body),
        unpacked(Method::Bzip2, body) == bzip2_data(body),
        unpacked(Method::Xz, body) == xz_data(body),
        unpacked(Method::Zstd, body) == zstd_data(body),
        ({
            &&& body.len() >= 9
            &&& alone.len() == body.len() + 4
            &&& forall|i: int| 0 <= i < 5 ==> #[trigger] alone[i] == body[i + 4]
            &&& forall|i: int| 5 <= i < 13 ==> #[trigger] alone[i] == 0xFF
            &&& forall|i: int| 13 <= i < alone.len() ==> #[trigger] alone[i] == body[i - 4]
        }) ==> unpacked(Method::Lzma, body) == lzma_alone_data(alone),
{
    if {
        &&& body.len() >= 9
        &&& alone.len() == body.len() + 4
        &&& forall|i: int| 0 <= i < 5 ==> #[trigger] alone[i] == body[i + 4]
        &&& forall|i: int| 5 <= i < 13 ==> #[trigger] alone[i] == 0xFF
        &&& forall|i: int| 13 <= i < alone.len() ==> #[trigger] alone[i] == body[i - 4]
    } {
        assert(alone_of(body) =~= alone);
    }
}

/// The numbers by which a ZIP file names the methods, and the lowest version
/// of the format that knows each.
pub proof fn law_method_numbers()
    ensures
        method_number(Method::Store) == 0 && version_of(Method::Store) == 20,
        method_number(Method::Deflate) == 8 && version_of(Method::Deflate) == 20,
        method_number(Method::Bzip2) == 12 && version_of(Method::Bzip2) == 46,
        method_number(Method::Lzma) == 14 && version_of(Method::Lzma) == 63,
        method_number(Method::Zstd) == 93 && version_of(Method::Zstd) == 63,
        method_number(Method::Xz) == 95 && version_of(Method::Xz) == 63,
{
}

/// The level that was asked for is the level of the call whose output is block
/// `i` of the stream, and 9 is where it is above 9: that call is given the bytes
/// of the block from one mebibyte to the next, and ends the stream only for the
/// last block.
pub proof fn law_blocks_are_deflated_at_the_level(
    level: u32,
    input: Seq<u8>,
    i: int,
    part: Seq<u8>,
) -> (room: nat)
    requires
        0 <= i,
        i * 1_048_576 < input.len(),
        block_result(level, input, i) == Ok::<Seq<u8>, CodecError>(part),
    ensures
        ({
            let lo = i * 1_048_576;
            let hi = if input.len() - lo > 1_048_576 {
                lo + 1_048_576
            } else {
                input.len() as int
            };
            let used = if level <= 9 {
                level
            } else {
                9
            };
            let call = deflate_call(used, input.subrange(lo, hi), hi == input.len(), room);
            call matches Some(c) && c.2 == part
        }),
{
    law_blocks_are_cut_and_compressed(level, input, i);
    let lo = i * 1_048_576;
    let hi = if input.len() - lo > 1_048_576 {
        lo + 1_048_576
    } else {
        input.len() as int
    };
    let used = if level <= 9 {
        level
    } else {
        9
    };
    let data = input.subrange(lo, hi);
    law_block_is_one_call(used, data, hi == input.len(), first_room(data.len()))
}

} // verus!
