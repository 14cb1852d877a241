//! The two compressed byte shapes of the block format — brotli streams for
//! string pools and blobs, and pco chunks for the numeric handle columns —
//! behind trusted wrappers whose contracts name the compressed bytes.
use vstd::prelude::*;

use crate::DecodeError;
use crate::EncodeError;
use vstd::utf8::encode_utf8;

verus! {

/// The brotli stream of `data` at quality `q`.
pub uninterp spec fn brotli_of(data: Seq<u8>, q: int) -> Seq<u8>;

/// The pco chunk (metadata and one page) of a `u16` column under delta
/// choice `delta`.
pub uninterp spec fn pco_of_u16(nums: Seq<u16>, delta: int) -> Seq<u8>;

/// The pco chunk (metadata and one page) of a `u32` column under delta
/// choice `delta`.
pub uninterp spec fn pco_of_u32(nums: Seq<u32>, delta: int) -> Seq<u8>;

/// The file header written by pco's default wrapped-file compressor; `tag` 0
/// stands for the one format family this library ever writes.
pub uninterp spec fn pco_header(tag: int) -> Seq<u8>;

/// The format family the given decompressor was constructed from.
pub uninterp spec fn pco_version_of(fd: pco::wrapped::FileDecompressor) -> int;

#[verifier::external_type_specification]
#[verifier::external_body]
pub struct ExFileDecompressor(pco::wrapped::FileDecompressor);

#[verifier::external_type_specification]
#[verifier::external_body]
pub struct ExDeltaSpec(pco::DeltaSpec);

/// How the encoder is told to delta-code one numeric column.
#[derive(Debug, Clone, Copy, PartialEq, Eq, Structural)]
pub enum DeltaMode {
    /// No delta coding: unordered handle columns.
    NoOp,
    /// Let the compressor pick: general number columns.
    Auto,
    /// Lookback references: grouped dictionary indices.
    Lookback,
    /// First-order consecutive deltas: near-monotone columns.
    Consecutive1,
    /// Second-order consecutive deltas: end-offset columns.
    Consecutive2,
}

impl DeltaMode {
    /// The number naming this choice inside the compressed-column names.
    pub open spec fn spec_code(self) -> int {
        match self {
            DeltaMode::NoOp => 0,
            DeltaMode::Auto => 1,
            DeltaMode::Lookback => 2,
            DeltaMode::Consecutive1 => 3,
            DeltaMode::Consecutive2 => 4,
        }
    }
}

/// Maps the library's delta choice onto `pco::DeltaSpec`, variant for
/// variant; pure conversion, so nothing is stated of the opaque result.
#[verifier::external_body]
fn delta_spec_of(d: DeltaMode) -> pco::DeltaSpec {
    match d {
        DeltaMode::NoOp => pco::DeltaSpec::NoOp,
        DeltaMode::Auto => pco::DeltaSpec::Auto,
        DeltaMode::Lookback => pco::DeltaSpec::TryLookback,
        DeltaMode::Consecutive1 => pco::DeltaSpec::TryConsecutive(1),
        DeltaMode::Consecutive2 => pco::DeltaSpec::TryConsecutive(2),
    }
}

/// Relies on `brotli::BrotliCompress`: a deterministic function of the input
/// bytes and the quality level (mode, window and the other parameters stay
/// at their defaults; out-of-range qualities are sanitized into range).
/// Appends the stream to `out` and returns its length.  The sink is an
/// in-memory buffer and the parameters are sanitized, which the source
/// shows are the only failure paths, so the call succeeds.
#[verifier::external_body]
pub fn brotli_compress(data: &[u8], q: u8, out: &mut Vec<u8>) -> (r: Result<usize, EncodeError>)
    ensures
        r is Ok,
        match r {
            Ok(n) => final(out)@ == old(out)@ + brotli_of(data@, q as int) && n == brotli_of(
                data@,
                q as int,
            ).len(),
            Err(_) => final(out)@ == old(out)@,
        },
{
    let mut params = brotli::enc::BrotliEncoderParams::default();
    params.quality = q as i32;
    let mut reader: &[u8] = data;
    let mut tmp: Vec<u8> = Vec::new();
    match brotli::BrotliCompress(&mut reader, &mut tmp, &params) {
        Ok(_) => {
            let n = tmp.len();
            out.extend_from_slice(&tmp);
            Ok(n)
        },
        Err(_) => Err(EncodeError::Codec),
    }
}

/// Relies on `brotli_decompressor::BrotliDecompress`: decompressing a brotli
/// stream returns exactly the bytes it was compressed from.  `input` must be
/// exactly the stream, as the size descriptors of the block format cut it.
#[verifier::external_body]
pub fn brotli_decompress(input: &[u8]) -> (r: Result<Vec<u8>, DecodeError>)
    ensures
        forall|d: Seq<u8>, q: int| input@ == brotli_of(d, q) ==> r is Ok && r->Ok_0@ == d,
{
    let mut reader: &[u8] = input;
    let mut buffer: Vec<u8> = Vec::new();
    match brotli_decompressor::BrotliDecompress(&mut reader, &mut buffer) {
        Ok(()) => Ok(buffer),
        Err(_) => Err(DecodeError::Codec),
    }
}

/// Relies on `String::from_utf8`: succeeds exactly on UTF-8 bytes and
/// returns the text they encode.
#[verifier::external_body]
pub fn string_from_utf8(v: Vec<u8>) -> (r: Result<String, DecodeError>)
    ensures
        r matches Ok(s) ==> encode_utf8(s@) == v@,
        forall|cs: Seq<char>| v@ == encode_utf8(cs) ==> r is Ok,
{
    match String::from_utf8(v) {
        Ok(s) => Ok(s),
        Err(_) => Err(DecodeError::Utf8),
    }
}

/// Relies on `pco::wrapped::FileCompressor::write_header` on the default
/// compressor: appends the fixed header of the current format family.  The
/// sink is an in-memory buffer, the only failure path, so the call
/// succeeds.
#[verifier::external_body]
pub fn pco_write_header(out: &mut Vec<u8>) -> (r: Result<(), EncodeError>)
    ensures
        r is Ok,
        match r {
            Ok(()) => final(out)@ == old(out)@ + pco_header(0),
            Err(_) => final(out)@ == old(out)@,
        },
{
    let fc = pco::wrapped::FileCompressor::default();
    let mut tmp: Vec<u8> = Vec::new();
    match fc.write_header(&mut tmp) {
        Ok(_) => {
            out.extend_from_slice(&tmp);
            Ok(())
        },
        Err(_) => Err(EncodeError::Codec),
    }
}

/// Relies on `pco::wrapped::FileDecompressor::new`: reads back exactly the
/// header `write_header` wrote and yields a decompressor of that family.
#[verifier::external_body]
pub fn pco_read_header(input: &[u8]) -> (r: Result<
    (pco::wrapped::FileDecompressor, usize),
    DecodeError,
>)
    ensures
        forall|rest: Seq<u8>|
            input@ == pco_header(0) + rest ==> r is Ok && pco_version_of(r->Ok_0.0) == 0
                && r->Ok_0.1 == pco_header(0).len(),
{
    match pco::wrapped::FileDecompressor::new(input) {
        Ok((fd, rest)) => Ok((fd, input.len() - rest.len())),
        Err(_) => Err(DecodeError::Codec),
    }
}


/// Relies on `pco::wrapped::FileCompressor::chunk_compressor`, `write_meta`
/// and `write_page`: one chunk of one page, a deterministic function of the
/// numbers and the delta choice (compression level 8, classic mode, one
/// equal page, as every column of the block format is written).  The
/// configuration is valid and the sink an in-memory buffer, so the source
/// shows one failure path: a chunk of more than `1 << 24` numbers.
#[verifier::external_body]
pub fn pco_compress_u16(nums: &[u16], delta: DeltaMode, out: &mut Vec<u8>) -> (r: Result<
    (),
    EncodeError,
>)
    requires
        nums@.len() > 0,
    ensures
        nums@.len() <= 0x100_0000 ==> r is Ok,
        match r {
            Ok(()) => final(out)@ == old(out)@ + pco_of_u16(nums@, delta.spec_code()),
            Err(_) => final(out)@ == old(out)@,
        },
{
    let config = pco::ChunkConfig::default().with_compression_level(8).with_delta_spec(
        delta_spec_of(delta),
    ).with_mode_spec(pco::ModeSpec::Classic).with_paging_spec(
        pco::PagingSpec::EqualPagesUpTo(nums.len()),
    );
    let fc = pco::wrapped::FileCompressor::default();
    let mut cc = fc.chunk_compressor(nums, &config).map_err(|_| EncodeError::Codec)?;
    let tmp = cc.write_meta(Vec::new()).map_err(|_| EncodeError::Codec)?;
    let tmp = cc.write_page(0, tmp).map_err(|_| EncodeError::Codec)?;
    out.extend_from_slice(&tmp);
    Ok(())
}

/// Relies on the same pco calls as `pco_compress_u16`, at `u32`, with the
/// same single failure path.
#[verifier::external_body]
pub fn pco_compress_u32(nums: &[u32], delta: DeltaMode, out: &mut Vec<u8>) -> (r: Result<
    (),
    EncodeError,
>)
    requires
        nums@.len() > 0,
    ensures
        nums@.len() <= 0x100_0000 ==> r is Ok,
        match r {
            Ok(()) => final(out)@ == old(out)@ + pco_of_u32(nums@, delta.spec_code()),
            Err(_) => final(out)@ == old(out)@,
        },
{
    let config = pco::ChunkConfig::default().with_compression_level(8).with_delta_spec(
        delta_spec_of(delta),
    ).with_mode_spec(pco::ModeSpec::Classic).with_paging_spec(
        pco::PagingSpec::EqualPagesUpTo(nums.len()),
    );
    let fc = pco::wrapped::FileCompressor::default();
    let mut cc = fc.chunk_compressor(nums, &config).map_err(|_| EncodeError::Codec)?;
    let tmp = cc.write_meta(Vec::new()).map_err(|_| EncodeError::Codec)?;
    let tmp = cc.write_page(0, tmp).map_err(|_| EncodeError::Codec)?;
    out.extend_from_slice(&tmp);
    Ok(())
}

/// Relies on `pco::wrapped::FileDecompressor::chunk_decompressor`,
/// `page_decompressor` and `PageDecompressor::read`: decoding is
/// deterministic, so a stream that begins with a compressed column of `n`
/// numbers yields those numbers and consumes exactly the chunk.
#[verifier::external_body]
pub fn pco_decompress_u16(fd: &pco::wrapped::FileDecompressor, input: &[u8], n: usize) -> (r:
    Result<(Vec<u16>, usize), DecodeError>)
    requires
        n > 0,
    ensures
        match r {
            Ok((vals, used)) => vals@.len() == n && used <= input@.len(),
            Err(_) => true,
        },
        forall|vals: Seq<u16>, delta: int|
            {
                let enc = #[trigger] pco_of_u16(vals, delta);
                (vals.len() == n && pco_version_of(*fd) == 0 && enc.len() <= input@.len()
                    && input@.take(enc.len() as int) == enc) ==> r is Ok && r->Ok_0.0@ == vals
                    && r->Ok_0.1 == enc.len()
            },
{
    let mut vals: Vec<u16> = vec![0; n];
    let (mut cd, rest) = fd.chunk_decompressor::<u16, &[u8]>(input).map_err(
        |_| DecodeError::Codec,
    )?;
    let mut pd = cd.page_decompressor(rest, n).map_err(|_| DecodeError::Codec)?;
    let progress = pd.read(&mut vals).map_err(|_| DecodeError::Codec)?;
    if !progress.finished || progress.n_processed != n {
        return Err(DecodeError::Codec);
    }
    let used = input.len() - pd.into_src().len();
    Ok((vals, used))
}

/// Relies on the same pco calls as `pco_decompress_u16`, at `u32`.
#[verifier::external_body]
pub fn pco_decompress_u32(fd: &pco::wrapped::FileDecompressor, input: &[u8], n: usize) -> (r:
    Result<(Vec<u32>, usize), DecodeError>)
    requires
        n > 0,
    ensures
        match r {
            Ok((vals, used)) => vals@.len() == n && used <= input@.len(),
            Err(_) => true,
        },
        forall|vals: Seq<u32>, delta: int|
            {
                let enc = #[trigger] pco_of_u32(vals, delta);
                (vals.len() == n && pco_version_of(*fd) == 0 && enc.len() <= input@.len()
                    && input@.take(enc.len() as int) == enc) ==> r is Ok && r->Ok_0.0@ == vals
                    && r->Ok_0.1 == enc.len()
            },
{
    let mut vals: Vec<u32> = vec![0; n];
    let (mut cd, rest) = fd.chunk_decompressor::<u32, &[u8]>(input).map_err(
        |_| DecodeError::Codec,
    )?;
    let mut pd = cd.page_decompressor(rest, n).map_err(|_| DecodeError::Codec)?;
    let progress = pd.read(&mut vals).map_err(|_| DecodeError::Codec)?;
    if !progress.finished || progress.n_processed != n {
        return Err(DecodeError::Codec);
    }
    let used = input.len() - pd.into_src().len();
    Ok((vals, used))
}

} // verus!
