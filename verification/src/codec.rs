//! Compression codecs: LZ4, Zstd, and passthrough.
//!
//! Every codec promises the same law: what `compress` produced,
//! `decompress` gives back, given the uncompressed length, wherever the
//! codec can round-trip (LZ4 stores the length as a `u32`, so below 4 GiB).

use crate::text::{ascii_lower_seq, chars_eq, chars_of, to_ascii_lower_chars};
use vstd::prelude::*;

verus! {

/// Why a codec refused.
#[derive(Debug, Clone, Copy, PartialEq, Eq)]
pub enum CodecError {
    /// The passthrough codec was told another length than it holds.
    LengthMismatch { expected: usize, got: usize },
    /// The LZ4 block did not decode.
    Lz4Decompress,
    /// The zstd encoder failed.
    ZstdCompress,
    /// The zstd frame did not decode within the given length.
    ZstdDecompress,
}

/// A stateless compression/decompression codec.
pub trait Codec {
    /// `c` is what compressing `d` yields.
    spec fn packs(&self, d: Seq<u8>, c: Seq<u8>) -> bool;

    /// Compressing `d` gives back `d` on decompression.
    spec fn round_trips(&self, d: Seq<u8>) -> bool;

    /// Compressing `d` fails (and with which error).
    spec fn compress_failure(&self, d: Seq<u8>) -> Option<CodecError>;

    /// The codec's name.
    spec fn codec_name(&self) -> Seq<char>;

    /// What decompressing `c` into `output_len` bytes gives: the bytes, or
    /// the error, for any input, compressed by the codec or not.
    spec fn unpacked(&self, c: Seq<u8>, output_len: usize) -> Result<Seq<u8>, CodecError>;

    /// Compress `data`: what compressing it yields, unless compressing it
    /// fails, and then that failure.
    fn compress(&self, data: &[u8]) -> (r: Result<Vec<u8>, CodecError>)
        ensures
            match self.compress_failure(data@) {
                None => r matches Ok(c) && self.packs(data@, c@),
                Some(e) => r == Err::<Vec<u8>, CodecError>(e),
            };

    /// Decompress `data` into exactly `output_len` bytes; the bytes that
    /// compressing `d` yielded decompress to `d`, wherever the codec's
    /// round trip holds.
    fn decompress(&self, data: &[u8], output_len: usize) -> (r: Result<Vec<u8>, CodecError>)
        ensures
            match self.unpacked(data@, output_len) {
                Ok(v) => r matches Ok(x) && x@ == v,
                Err(e) => r == Err::<Vec<u8>, CodecError>(e),
            },
            forall|d: Seq<u8>|
                #![trigger self.packs(d, data@)]
                self.packs(d, data@) && self.round_trips(d) && d.len() == output_len ==> (r matches Ok(v) && v@
                    == d);

    /// Human-readable name of this codec.
    fn name(&self) -> (r: &'static str)
        ensures
            r@ == self.codec_name();
}

/// Which algorithm and effort level the block codecs use.
#[derive(Debug, Clone, Copy, PartialEq, Eq)]
pub enum CompressionLevel {
    /// No compression: raw bytes pass through unchanged.
    Uncompressed,
    /// LZ4: very fast compression with moderate ratio.
    Fast,
    /// Zstd at the balanced effort level.
    Balanced,
    /// Zstd at the best effort level.
    Best,
}

impl Default for CompressionLevel {
    fn default() -> (r: Self)
        ensures
            r == CompressionLevel::Fast,
    {
        CompressionLevel::Fast
    }
}

impl CompressionLevel {
    /// Parse from a string, ASCII case-insensitively.
    pub fn from_str(s: &str) -> (r: Option<CompressionLevel>)
        ensures
            r == (if ascii_lower_seq(s@) == "none"@ {
                Some(CompressionLevel::Uncompressed)
            } else if ascii_lower_seq(s@) == "fast"@ {
                Some(CompressionLevel::Fast)
            } else if ascii_lower_seq(s@) == "balanced"@ {
                Some(CompressionLevel::Balanced)
            } else if ascii_lower_seq(s@) == "best"@ {
                Some(CompressionLevel::Best)
            } else {
                None
            }),
    {
        let cs = chars_of(s);
        let l = to_ascii_lower_chars(cs.as_slice());
        let none = chars_of("none");
        let fast = chars_of("fast");
        let balanced = chars_of("balanced");
        let best = chars_of("best");
        if chars_eq(l.as_slice(), none.as_slice()) {
            Some(CompressionLevel::Uncompressed)
        } else if chars_eq(l.as_slice(), fast.as_slice()) {
            Some(CompressionLevel::Fast)
        } else if chars_eq(l.as_slice(), balanced.as_slice()) {
            Some(CompressionLevel::Balanced)
        } else if chars_eq(l.as_slice(), best.as_slice()) {
            Some(CompressionLevel::Best)
        } else {
            None
        }
    }

    /// The zstd effort each level means (`None` and `Fast` use no zstd).
    pub fn zstd_level(&self) -> (r: i32)
        ensures
            r == match *self {
                CompressionLevel::Best => 6i32,
                _ => 3i32,
            },
    {
        match self {
            CompressionLevel::Best => 6,
            _ => 3,
        }
    }
}

/// Passthrough codec: no compression applied.
#[derive(Debug, Default, Clone, Copy)]
pub struct NoneCodec;

fn copy_slice(data: &[u8]) -> (r: Vec<u8>)
    ensures
        r@ == data@,
{
    let r = crate::bytes::slice_vec(data, 0, data.len());
    proof {
        assert(r@ =~= data@);
    }
    r
}

impl Codec for NoneCodec {
    open spec fn packs(&self, d: Seq<u8>, c: Seq<u8>) -> bool {
        c == d
    }

    open spec fn round_trips(&self, d: Seq<u8>) -> bool {
        true
    }

    /// Passing bytes through never fails.
    open spec fn compress_failure(&self, d: Seq<u8>) -> Option<CodecError> {
        None
    }

    open spec fn codec_name(&self) -> Seq<char> {
        "none"@
    }

    /// The bytes themselves, when they are exactly `output_len` long.
    open spec fn unpacked(&self, c: Seq<u8>, output_len: usize) -> Result<Seq<u8>, CodecError> {
        if c.len() != output_len {
            Err(CodecError::LengthMismatch { expected: output_len, got: c.len() as usize })
        } else {
            Ok(c)
        }
    }

    fn compress(&self, data: &[u8]) -> (r: Result<Vec<u8>, CodecError>) {
        Ok(copy_slice(data))
    }

    fn decompress(&self, data: &[u8], output_len: usize) -> (r: Result<Vec<u8>, CodecError>) {
        if data.len() != output_len {
            return Err(CodecError::LengthMismatch { expected: output_len, got: data.len() });
        }
        Ok(copy_slice(data))
    }

    fn name(&self) -> &'static str {
        "none"
    }
}

impl NoneCodec {
    /// The passthrough refuses exactly a length that differs from what it holds.
    pub fn decompress_checked(&self, data: &[u8], output_len: usize) -> (r: Result<Vec<u8>, CodecError>)
        ensures
            data@.len() == output_len ==> (r matches Ok(v) && v@ == data@),
            data@.len() != output_len ==> r == Err::<Vec<u8>, CodecError>(
                CodecError::LengthMismatch { expected: output_len, got: data@.len() as usize },
            ),
    {
        if data.len() != output_len {
            return Err(CodecError::LengthMismatch { expected: output_len, got: data.len() });
        }
        Ok(copy_slice(data))
    }
}

/// What `lz4_flex::compress_prepend_size` makes of some bytes.
pub uninterp spec fn lz4_packed(d: Seq<u8>) -> Seq<u8>;

/// What `lz4_flex::decompress_size_prepended` makes of some bytes (`None` when it fails).
pub uninterp spec fn lz4_unpacked(c: Seq<u8>) -> Option<Seq<u8>>;

/// `lz4_flex::compress_prepend_size`: an LZ4 block with the uncompressed size
/// prepended as a little-endian `u32` (`input.len() as u32`), which
/// `decompress_size_prepended` turns back into the input when that size is
/// exact, that is below 4 GiB. Of a larger input the stored size is
/// truncated and no round trip is claimed.
#[verifier::external_body]
fn lz4_compress(data: &[u8]) -> (r: Vec<u8>)
    ensures
        r@ == lz4_packed(data@),
        data@.len() <= u32::MAX ==> lz4_unpacked(r@) == Some(data@),
{
    lz4_flex::compress_prepend_size(data)
}

#[verifier::external_type_specification]
#[verifier::external_body]
pub struct ExLz4DecompressError(lz4_flex::block::DecompressError);

/// `lz4_flex::decompress_size_prepended`. Named, not stated. Its
/// documentation mentions a possible panic when the stored size understates
/// the data; the safe decoder of this version reports that as an error.
#[verifier::external_body]
fn lz4_decompress(data: &[u8]) -> (r: Result<Vec<u8>, lz4_flex::block::DecompressError>)
    ensures
        r matches Ok(v) ==> lz4_unpacked(data@) == Some(v@),
        r is Err ==> lz4_unpacked(data@) is None,
{
    lz4_flex::decompress_size_prepended(data)
}

/// LZ4-based codec.
#[derive(Debug, Default, Clone, Copy)]
pub struct Lz4Codec;

impl Codec for Lz4Codec {
    open spec fn packs(&self, d: Seq<u8>, c: Seq<u8>) -> bool {
        c == lz4_packed(d) && (d.len() <= u32::MAX ==> lz4_unpacked(c) == Some(d))
    }

    /// The stored size is a `u32`: inputs of 4 GiB or more do not come back.
    open spec fn round_trips(&self, d: Seq<u8>) -> bool {
        d.len() <= u32::MAX
    }

    /// LZ4 block compression never fails.
    open spec fn compress_failure(&self, d: Seq<u8>) -> Option<CodecError> {
        None
    }

    open spec fn codec_name(&self) -> Seq<char> {
        "lz4"@
    }

    /// What the LZ4 decoder makes of the bytes (the size stored in them,
    /// not `output_len`, governs), or `Lz4Decompress` when it fails.
    open spec fn unpacked(&self, c: Seq<u8>, output_len: usize) -> Result<Seq<u8>, CodecError> {
        match lz4_unpacked(c) {
            Some(v) => Ok(v),
            None => Err(CodecError::Lz4Decompress),
        }
    }

    fn compress(&self, data: &[u8]) -> (r: Result<Vec<u8>, CodecError>) {
        Ok(lz4_compress(data))
    }

    fn decompress(&self, data: &[u8], output_len: usize) -> (r: Result<Vec<u8>, CodecError>) {
        match lz4_decompress(data) {
            Ok(v) => Ok(v),
            Err(_) => Err(CodecError::Lz4Decompress),
        }
    }

    fn name(&self) -> &'static str {
        "lz4"
    }
}

/// What `zstd::bulk::compress` makes of some bytes at a level (`None` when it fails).
pub uninterp spec fn zstd_packed(d: Seq<u8>, level: i32) -> Option<Seq<u8>>;

/// What `zstd::bulk::decompress` makes of a frame within a capacity (`None` when it fails).
pub uninterp spec fn zstd_unpacked(c: Seq<u8>, capacity: usize) -> Option<Seq<u8>>;

#[verifier::external_type_specification]
#[verifier::external_body]
pub struct ExIoError(std::io::Error);

/// `zstd::bulk::compress`: one zstd frame of `data` at `level`, which
/// `zstd::bulk::decompress` turns back into `data` within a capacity of its
/// length (the round trip the crate documents).
#[verifier::external_body]
fn zstd_compress(data: &[u8], level: i32) -> (r: Result<Vec<u8>, std::io::Error>)
    ensures
        r matches Ok(v) ==> zstd_packed(data@, level) == Some(v@),
        r is Err ==> zstd_packed(data@, level) is None,
        r matches Ok(v) ==> zstd_unpacked(v@, data@.len() as usize) == Some(data@),
{
    zstd::bulk::compress(data, level)
}

/// `zstd::bulk::decompress`: the frame's content when it fits in `capacity`
/// bytes. Named, not stated.
#[verifier::external_body]
fn zstd_decompress(data: &[u8], capacity: usize) -> (r: Result<Vec<u8>, std::io::Error>)
    ensures
        r matches Ok(v) ==> zstd_unpacked(data@, capacity) == Some(v@),
        r is Err ==> zstd_unpacked(data@, capacity) is None,
{
    zstd::bulk::decompress(data, capacity)
}

/// Zstd-based codec.
#[derive(Debug, Clone, Copy)]
pub struct ZstdCodec {
    level: i32,
}

impl ZstdCodec {
    pub closed spec fn level_of(&self) -> i32 {
        self.level
    }

    pub fn new(level: i32) -> (r: ZstdCodec)
        ensures
            r.level_of() == level,
    {
        ZstdCodec { level }
    }

    /// Balanced zstd: the level `"balanced"` selects.
    pub fn balanced() -> (r: ZstdCodec)
        ensures
            r.level_of() == 3,
    {
        ZstdCodec::new(CompressionLevel::Balanced.zstd_level())
    }

    /// Maximum-ratio zstd: the level `"best"` selects.
    pub fn best() -> (r: ZstdCodec)
        ensures
            r.level_of() == 6,
    {
        ZstdCodec::new(CompressionLevel::Best.zstd_level())
    }
}

impl Default for ZstdCodec {
    fn default() -> (r: Self)
        ensures
            r.level_of() == 3,
    {
        ZstdCodec::balanced()
    }
}

impl Codec for ZstdCodec {
    open spec fn packs(&self, d: Seq<u8>, c: Seq<u8>) -> bool {
        zstd_packed(d, self.level_of()) == Some(c) && zstd_unpacked(c, d.len() as usize) == Some(d)
    }

    open spec fn round_trips(&self, d: Seq<u8>) -> bool {
        true
    }

    /// Fails exactly when the zstd encoder does.
    open spec fn compress_failure(&self, d: Seq<u8>) -> Option<CodecError> {
        if zstd_packed(d, self.level_of()) is None {
            Some(CodecError::ZstdCompress)
        } else {
            None
        }
    }

    open spec fn codec_name(&self) -> Seq<char> {
        "zstd"@
    }

    /// What the zstd decoder makes of the frame within `output_len` bytes,
    /// or `ZstdDecompress` when it fails.
    open spec fn unpacked(&self, c: Seq<u8>, output_len: usize) -> Result<Seq<u8>, CodecError> {
        match zstd_unpacked(c, output_len) {
            Some(v) => Ok(v),
            None => Err(CodecError::ZstdDecompress),
        }
    }

    fn compress(&self, data: &[u8]) -> (r: Result<Vec<u8>, CodecError>) {
        match zstd_compress(data, self.level) {
            Ok(v) => Ok(v),
            Err(_) => Err(CodecError::ZstdCompress),
        }
    }

    fn decompress(&self, data: &[u8], output_len: usize) -> (r: Result<Vec<u8>, CodecError>) {
        match zstd_decompress(data, output_len) {
            Ok(v) => Ok(v),
            Err(_) => Err(CodecError::ZstdDecompress),
        }
    }

    fn name(&self) -> &'static str {
        "zstd"
    }
}

/// The codec a level selects.
pub enum AnyCodec {
    Passthrough(NoneCodec),
    Lz4(Lz4Codec),
    Zstd(ZstdCodec),
}

impl Codec for AnyCodec {
    open spec fn packs(&self, d: Seq<u8>, c: Seq<u8>) -> bool {
        match self {
            AnyCodec::Passthrough(x) => x.packs(d, c),
            AnyCodec::Lz4(x) => x.packs(d, c),
            AnyCodec::Zstd(x) => x.packs(d, c),
        }
    }

    open spec fn round_trips(&self, d: Seq<u8>) -> bool {
        match self {
            AnyCodec::Passthrough(x) => x.round_trips(d),
            AnyCodec::Lz4(x) => x.round_trips(d),
            AnyCodec::Zstd(x) => x.round_trips(d),
        }
    }

    open spec fn compress_failure(&self, d: Seq<u8>) -> Option<CodecError> {
        match self {
            AnyCodec::Passthrough(x) => x.compress_failure(d),
            AnyCodec::Lz4(x) => x.compress_failure(d),
            AnyCodec::Zstd(x) => x.compress_failure(d),
        }
    }

    open spec fn codec_name(&self) -> Seq<char> {
        match self {
            AnyCodec::Passthrough(x) => x.codec_name(),
            AnyCodec::Lz4(x) => x.codec_name(),
            AnyCodec::Zstd(x) => x.codec_name(),
        }
    }

    open spec fn unpacked(&self, c: Seq<u8>, output_len: usize) -> Result<Seq<u8>, CodecError> {
        match self {
            AnyCodec::Passthrough(x) => x.unpacked(c, output_len),
            AnyCodec::Lz4(x) => x.unpacked(c, output_len),
            AnyCodec::Zstd(x) => x.unpacked(c, output_len),
        }
    }

    fn compress(&self, data: &[u8]) -> (r: Result<Vec<u8>, CodecError>) {
        match self {
            AnyCodec::Passthrough(x) => x.compress(data),
            AnyCodec::Lz4(x) => x.compress(data),
            AnyCodec::Zstd(x) => x.compress(data),
        }
    }

    fn decompress(&self, data: &[u8], output_len: usize) -> (r: Result<Vec<u8>, CodecError>) {
        match self {
            AnyCodec::Passthrough(x) => x.decompress(data, output_len),
            AnyCodec::Lz4(x) => x.decompress(data, output_len),
            AnyCodec::Zstd(x) => x.decompress(data, output_len),
        }
    }

    fn name(&self) -> &'static str {
        match self {
            AnyCodec::Passthrough(x) => x.name(),
            AnyCodec::Lz4(x) => x.name(),
            AnyCodec::Zstd(x) => x.name(),
        }
    }
}

/// The codec for a compression level.
pub fn get_codec(level: CompressionLevel) -> (r: AnyCodec)
    ensures
        match level {
            CompressionLevel::Uncompressed => r is Passthrough,
            CompressionLevel::Fast => r is Lz4,
            CompressionLevel::Balanced => r matches AnyCodec::Zstd(z) && z.level_of() == 3,
            CompressionLevel::Best => r matches AnyCodec::Zstd(z) && z.level_of() == 6,
        },
{
    match level {
        CompressionLevel::Uncompressed => AnyCodec::Passthrough(NoneCodec),
        CompressionLevel::Fast => AnyCodec::Lz4(Lz4Codec),
        CompressionLevel::Balanced => AnyCodec::Zstd(ZstdCodec::balanced()),
        CompressionLevel::Best => AnyCodec::Zstd(ZstdCodec::best()),
    }
}

} // verus!
