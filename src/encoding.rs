//! The wire format in which a patch file is sent.
//!
//! Layout: the uncompressed length as 5 little-endian bytes, then the raw
//! `.lzma` stream, whose bytes 10..18 are overwritten with the uncompressed
//! length as 8 little-endian bytes.
use vstd::arithmetic::div_mod::{lemma_mod_breakdown, lemma_small_mod};
use std::io::Read;
use vstd::prelude::*;

verus! {

/// Compression preset handed to the LZMA encoder.
pub const LZMA_PRESET: u32 = 6;

/// Dictionary size handed to the LZMA encoder (32 MiB).
pub const LZMA_DICT_SIZE: u32 = 33554432;

/// Number of length bytes written before the compressed stream.
pub const LENGTH_PREFIX_LEN: usize = 5;

/// Offset, within the compressed stream, of the embedded size field.
pub const HEADER_SIZE_OFFSET: usize = 10;

/// Width of the embedded size field.
pub const HEADER_SIZE_LEN: usize = 8;

/// Shortest compressed stream that holds the whole embedded size field.
pub const MIN_STREAM_LEN: usize = 18;

/// Error that the compressor reports.
#[verifier::external_type_specification]
#[verifier::external_body]
pub struct ExIoError(std::io::Error);

/// The raw `.lzma` stream that liblzma produces for `data` with the given
/// preset and dictionary size.
pub uninterp spec fn lzma_alone_of(data: Seq<u8>, preset: u32, dict_size: u32) -> Seq<u8>;

/// The stream that `encode` compresses `data` into.
pub open spec fn compressed_of(data: Seq<u8>) -> Seq<u8> {
    lzma_alone_of(data, LZMA_PRESET, LZMA_DICT_SIZE)
}

/// The `k` low-order bytes of `n`, least significant first.
pub open spec fn le_bytes(n: nat, k: nat) -> Seq<u8>
    decreases k,
{
    if k == 0 {
        seq![]
    } else {
        seq![(n % 256) as u8] + le_bytes(n / 256, (k - 1) as nat)
    }
}

/// The number that the little-endian bytes `s` denote.
pub open spec fn le_value(s: Seq<u8>) -> nat
    decreases s.len(),
{
    if s.len() == 0 {
        0
    } else {
        s[0] as nat + 256 * le_value(s.drop_first())
    }
}

/// `stream` with its embedded size field set to `len`.
pub open spec fn patched_stream(len: nat, stream: Seq<u8>) -> Seq<u8> {
    stream.take(HEADER_SIZE_OFFSET as int) + le_bytes(len, HEADER_SIZE_LEN as nat)
        + stream.skip(MIN_STREAM_LEN as int)
}

/// What is sent for a file of `len` bytes whose compressed stream is `stream`.
pub open spec fn wire_format(len: nat, stream: Seq<u8>) -> Seq<u8> {
    le_bytes(len, LENGTH_PREFIX_LEN as nat) + patched_stream(len, stream)
}

/// Why a file could not be encoded.
#[derive(Debug, Clone, Copy, PartialEq, Eq, Structural)]
pub enum EncodeError {
    /// The compressor could not be set up, or failed while it was drained;
    /// with the parameters that `encode` uses this does not happen.
    Compression,
    /// The compressor returned a stream too short to hold its size field.
    StreamTooShort,
}

proof fn lemma_le_bytes_len(n: nat, k: nat)
    ensures
        le_bytes(n, k).len() == k,
    decreases k,
{
    if k > 0 {
        lemma_le_bytes_len(n / 256, (k - 1) as nat);
    }
}

proof fn lemma_le_bytes_take(n: nat, k: nat, j: nat)
    requires
        j <= k,
    ensures
        le_bytes(n, k).take(j as int) == le_bytes(n, j),
    decreases j,
{
    lemma_le_bytes_len(n, k);
    if j > 0 {
        lemma_le_bytes_take(n / 256, (k - 1) as nat, (j - 1) as nat);
        lemma_le_bytes_len(n / 256, (k - 1) as nat);
        assert(le_bytes(n, k).take(j as int) =~= le_bytes(n, j));
    }
}

proof fn lemma_le_value_of_bytes(n: nat, k: nat)
    ensures
        le_value(le_bytes(n, k)) == n % pow256(k),
        pow256(k) > 0,
    decreases k,
{
    if k > 0 {
        let rest = le_bytes(n / 256, (k - 1) as nat);
        lemma_le_value_of_bytes(n / 256, (k - 1) as nat);
        assert(le_bytes(n, k).drop_first() =~= rest);
        lemma_mod_breakdown(n as int, 256, pow256((k - 1) as nat) as int);
        assert(256 * pow256((k - 1) as nat) == pow256(k));
    }
}

/// `256` raised to the power `k`.
pub open spec fn pow256(k: nat) -> nat
    decreases k,
{
    if k == 0 {
        1
    } else {
        256 * pow256((k - 1) as nat)
    }
}

/// The first five bytes of the wire form are the uncompressed length modulo
/// 2^40, little-endian.
pub proof fn lemma_length_prefix(len: nat, stream: Seq<u8>)
    requires
        stream.len() >= MIN_STREAM_LEN,
    ensures
        wire_format(len, stream).take(5) == le_bytes(len, 5),
        le_value(wire_format(len, stream).take(5)) == len % 0x100_0000_0000,
{
    lemma_le_bytes_len(len, 5);
    assert(wire_format(len, stream).take(5) =~= le_bytes(len, 5));
    lemma_le_value_of_bytes(len, 5);
    reveal_with_fuel(pow256, 6);
    assert(pow256(5) == 0x100_0000_0000);
}

/// Bytes 15..23 of the wire form are the uncompressed length as 8
/// little-endian bytes.
pub proof fn lemma_embedded_size(len: nat, stream: Seq<u8>)
    requires
        stream.len() >= MIN_STREAM_LEN,
    ensures
        wire_format(len, stream).subrange(15, 23) == le_bytes(len, 8),
        len < 0x1_0000_0000_0000_0000 ==> le_value(wire_format(len, stream).subrange(15, 23))
            == len,
        wire_format(len, stream).len() == stream.len() + 5,
{
    lemma_le_bytes_len(len, 5);
    lemma_le_bytes_len(len, 8);
    assert(wire_format(len, stream).subrange(15, 23) =~= le_bytes(len, 8));
    lemma_le_value_of_bytes(len, 8);
    reveal_with_fuel(pow256, 9);
    assert(pow256(8) == 0x1_0000_0000_0000_0000);
    if len < pow256(8) {
        lemma_small_mod(len, pow256(8));
    }
}

/// The `count` low-order bytes of `n`, least significant first.
fn le_bytes_of(n: u64, count: usize) -> (r: Vec<u8>)
    ensures
        r@ == le_bytes(n as nat, count as nat),
{
    let mut r: Vec<u8> = Vec::new();
    let mut v: u64 = n;
    let mut i: usize = 0;
    while i < count
        invariant
            i <= count,
            r@ + le_bytes(v as nat, (count - i) as nat) == le_bytes(n as nat, count as nat),
        decreases count - i,
    {
        let ghost before = r@;
        r.push((v % 256) as u8);
        assert(le_bytes(v as nat, (count - i) as nat) == seq![(v % 256) as u8] + le_bytes(
            (v / 256) as nat,
            (count - i - 1) as nat,
        ));
        assert(r@ + le_bytes((v / 256) as nat, (count - i - 1) as nat) =~= before + le_bytes(
            v as nat,
            (count - i) as nat,
        ));
        v = v / 256;
        i = i + 1;
    }
    assert(r@ =~= r@ + le_bytes(v as nat, 0));
    r
}

/// Turns a raw compressed stream into its wire form for a file of `size`
/// bytes: sets the embedded size field and puts the 5-byte length in front.
pub fn fix_header_size(size: u64, compressed: &mut Vec<u8>)
    requires
        old(compressed)@.len() >= MIN_STREAM_LEN,
    ensures
        final(compressed)@ == wire_format(size as nat, old(compressed)@),
{
    let size_bytes = le_bytes_of(size, HEADER_SIZE_LEN);
    proof {
        lemma_le_bytes_len(size as nat, 8);
        lemma_le_bytes_take(size as nat, 8, 5);
    }
    let ghost stream = compressed@;
    let mut i: usize = 0;
    while i < HEADER_SIZE_LEN
        invariant
            i <= HEADER_SIZE_LEN,
            size_bytes@ == le_bytes(size as nat, 8),
            size_bytes@.len() == 8,
            compressed@.len() == stream.len(),
            stream.len() >= MIN_STREAM_LEN,
            forall|k: int|
                0 <= k < stream.len() ==> compressed@[k] == if HEADER_SIZE_OFFSET <= k
                    < HEADER_SIZE_OFFSET + i {
                    size_bytes@[k - HEADER_SIZE_OFFSET]
                } else {
                    stream[k]
                },
        decreases HEADER_SIZE_LEN - i,
    {
        compressed.set(HEADER_SIZE_OFFSET + i, size_bytes[i]);
        i = i + 1;
    }
    assert(compressed@ =~= patched_stream(size as nat, stream));
    let ghost patched = compressed@;
    let mut j: usize = LENGTH_PREFIX_LEN;
    while j > 0
        invariant
            j <= LENGTH_PREFIX_LEN,
            size_bytes@ == le_bytes(size as nat, 8),
            size_bytes@.len() == 8,
            size_bytes@.take(5) == le_bytes(size as nat, 5),
            compressed@ == size_bytes@.subrange(j as int, 5) + patched,
        decreases j,
    {
        j = j - 1;
        compressed.insert(0, size_bytes[j]);
        assert(compressed@ =~= size_bytes@.subrange(j as int, 5) + patched);
    }
    assert(size_bytes@.subrange(0, 5) =~= size_bytes@.take(5));
}

/// Relies on xz2: `LzmaOptions::new_preset` and `dict_size` to configure,
/// `Stream::new_lzma_encoder` for a raw `.lzma` encoder, and `read_to_end` on
/// `read::XzEncoder` to drain the whole stream. The output depends on the
/// input bytes and the two parameters alone. liblzma accepts presets 0..=9 and
/// dictionaries of 4 KiB up to 1.5 GiB; its `.lzma` output opens with a
/// 13-byte header (`ALONE_HEADER_SIZE`) and ends with the range coder's 5
/// flushed bytes (`rc_flush`).
#[verifier::external_body]
fn compress(content: &[u8], preset: u32, dict_size: u32) -> (r: Result<Vec<u8>, std::io::Error>)
    ensures
        r matches Ok(out) ==> out@ == lzma_alone_of(content@, preset, dict_size) && out@.len()
            >= 18,
        preset <= 9 && 4096 <= dict_size <= 0x6000_0000 ==> r is Ok,
{
    let mut options = xz2::stream::LzmaOptions::new_preset(preset)?;
    options.dict_size(dict_size);
    let stream = xz2::stream::Stream::new_lzma_encoder(&options)?;
    let mut encoder = xz2::read::XzEncoder::new_stream(content, stream);
    let mut out = Vec::new();
    encoder.read_to_end(&mut out)?;
    Ok(out)
}

/// Frames an already compressed stream for a file of `size` bytes. Fails
/// exactly when the stream is too short to hold its size field.
pub fn encode_compressed(size: u64, compressed: Vec<u8>) -> (r: Result<Vec<u8>, EncodeError>)
    ensures
        compressed@.len() >= MIN_STREAM_LEN ==> r == Ok::<Vec<u8>, EncodeError>(r->Ok_0) && r->Ok_0@
            == wire_format(size as nat, compressed@),
        compressed@.len() < MIN_STREAM_LEN ==> r == Err::<Vec<u8>, EncodeError>(
            EncodeError::StreamTooShort,
        ),
{
    if compressed.len() < MIN_STREAM_LEN {
        return Err(EncodeError::StreamTooShort);
    }
    let mut framed = compressed;
    fix_header_size(size, &mut framed);
    Ok(framed)
}

/// Encodes the bytes of a file into the wire format.
pub fn encode(content: &Vec<u8>) -> (r: Result<Vec<u8>, EncodeError>)
    ensures
        compressed_of(content@).len() >= MIN_STREAM_LEN,
        r is Ok,
        r matches Ok(w) ==> w@ == wire_format(content@.len(), compressed_of(content@)),
{
    match compress(content.as_slice(), LZMA_PRESET, LZMA_DICT_SIZE) {
        Ok(stream) => encode_compressed(content.len() as u64, stream),
        Err(_) => Err(EncodeError::Compression),
    }
}

} // verus!
