//! LZ4 compression, of one record and of a batch of messages.
//!
//! Before it is compressed, a batch is the number of its messages in four bytes,
//! and then each message behind its length in four bytes, all little-endian.

use vstd::prelude::*;

use vstd::slice::{slice_subrange, slice_to_vec};

use crate::log;
use crate::log::{LogError, LogErrorView};
use crate::wire;
use crate::wire::{get_le, put_le};

verus! {

/// What `lz4_flex::decompress_size_prepended` makes of a buffer: the bytes, or
/// the text of its error.
pub uninterp spec fn lz4_decompressed(input: Seq<u8>) -> Result<Seq<u8>, Seq<char>>;

/// The result of a decompression that gives these bytes.
pub open spec fn restored(bytes: Seq<u8>) -> Result<Seq<u8>, Seq<char>> {
    Ok(bytes)
}

/// How many bytes of value 255 stand in a row from `pos` on.
pub open spec fn run_at(block: Seq<u8>, pos: int) -> nat
    decreases block.len() - pos,
{
    if 0 <= pos < block.len() && block[pos] == 0xff {
        1 + run_at(block, pos + 1)
    } else {
        0
    }
}

/// The number in the length field at `pos`: its bytes are added up to the first
/// that is not 255, or to the end of the block.
pub open spec fn number_at(block: Seq<u8>, pos: int) -> nat {
    let last = pos + run_at(block, pos);
    255 * run_at(block, pos) + if last < block.len() {
        block[last] as nat
    } else {
        0
    }
}

/// Where the length field at `pos` ends; past the end of the block if the field
/// does not end in it.
pub open spec fn after_number(block: Seq<u8>, pos: int) -> int {
    pos + run_at(block, pos) + 1
}

/// Whether the number in the length field at `pos`, added to `base`, stays within
/// the bounds of 32 bits and of a machine word.
pub open spec fn number_holds(block: Seq<u8>, pos: int, base: int) -> bool {
    number_at(block, pos) <= u32::MAX && base + number_at(block, pos) <= usize::MAX
}

/// Whether the length fields of a block hold, from the sequence at `pos` on, with
/// `out` of `size` bytes decompressed before it. A sequence is a token with two
/// counts, the literals, the distance of a match in two bytes, and the match; a
/// count of 15 is followed by a length field. Decompression ends at the end of the
/// block, or where it finds a fault: what stands behind that is not looked at.
pub open spec fn lengths_hold(block: Seq<u8>, pos: int, out: int, size: int) -> bool
    decreases
            (if pos < block.len() {
                block.len() - pos
            } else {
                0
            }),
{
    if pos < 0 || pos >= block.len() {
        true
    } else {
        let long_literals = block[pos] / 16 == 15;
        let start = if long_literals {
            after_number(block, pos + 1)
        } else {
            pos + 1
        };
        let literals = block[pos] / 16 + if long_literals {
            number_at(block, pos + 1)
        } else {
            0
        };
        let place = start + literals;
        let filled = out + literals;
        if long_literals && !number_holds(block, pos + 1, 15) {
            false
        } else if place + 2 > block.len() || filled > size {
            true
        } else {
            let distance = wire::le_value(block.subrange(place, place + 2));
            let long_match = block[pos] % 16 == 15;
            let next = if long_match {
                after_number(block, place + 2)
            } else {
                place + 2
            };
            let copied = 4 + block[pos] % 16 + if long_match {
                number_at(block, place + 2)
            } else {
                0
            };
            if distance == 0 {
                true
            } else if long_match && !number_holds(block, place + 2, filled + 19) {
                false
            } else if filled + copied > size || distance > filled {
                true
            } else {
                lengths_hold(block, next, filled + copied, size)
            }
        }
    }
}

/// Whether the length that a buffer claims to hold fits in memory, and the length
/// fields of its block hold.
pub open spec fn decompressible(input: Seq<u8>) -> bool {
    input.len() >= 4 ==> {
        let size = wire::le_value(input.take(4));
        size <= isize::MAX && lengths_hold(input.skip(4), 0, 0, size as int)
    }
}

/// Calls `lz4_flex::compress_prepend_size`. The buffer starts with the low four
/// bytes of the input's length, with at least one byte behind them; it is no
/// longer than the crate's bound on its output. Where the input's length fits those
/// four bytes, the length fields in the buffer hold, since they count bytes of the
/// input, and it decompresses to the input. Which of the possible encodings is
/// chosen differs from machine to machine, and nothing is said of it.
#[verifier::external_body]
fn compress_prepend_size(input: &[u8]) -> (out: Vec<u8>)
    requires
        input@.len() * 110 <= usize::MAX,
    ensures
        4 < out@.len() <= 24 + input@.len() * 110 / 100,
        out@.take(4) == wire::le_bytes(input@.len(), 4),
        input@.len() <= u32::MAX ==> decompressible(out@),
        input@.len() <= u32::MAX ==> lz4_decompressed(out@) == restored(input@),
{
    lz4_flex::compress_prepend_size(input)
}

/// A result with its bytes and its text by their views.
pub open spec fn plain_outcome(r: Result<Vec<u8>, String>) -> Result<Seq<u8>, Seq<char>> {
    match r {
        Ok(bytes) => Ok(bytes@),
        Err(text) => Err(text@),
    }
}

/// Calls `lz4_flex::decompress_size_prepended` and gives its error as text. The
/// result is a function of the buffer. One that ends with its length, or before, is
/// refused since a byte is missing.
#[verifier::external_body]
fn decompress_size_prepended(input: &[u8]) -> (r: Result<Vec<u8>, String>)
    requires
        decompressible(input@),
    ensures
        plain_outcome(r) == lz4_decompressed(input@),
        input@.len() <= 4 ==> r is Err,
        input@.len() <= 4 ==> r->Err_0@ == "expected another byte, found none"@,
{
    lz4_flex::decompress_size_prepended(input).map_err(|e| format!("{}", e))
}

/// The decompression of a buffer. One that ends with its length, or before, holds
/// no block, and is refused whatever length it claims.
pub open spec fn decompressed(input: Seq<u8>) -> Result<Seq<u8>, Seq<char>> {
    if input.len() > 4 {
        lz4_decompressed(input)
    } else {
        Err("expected another byte, found none"@)
    }
}

/// Whether a buffer can be handed to `decompress`.
pub open spec fn accepted(input: Seq<u8>) -> bool {
    input.len() > 4 ==> decompressible(input)
}

/// What a decompression is answered with.
pub open spec fn answered(r: Result<Seq<u8>, Seq<char>>) -> Result<Seq<u8>, LogErrorView> {
    match r {
        Ok(bytes) => Ok(bytes),
        Err(text) => Err(LogErrorView::CorruptRecord("lz4 decompress: "@ + text)),
    }
}

/// The answer to a decompression: its bytes, or a corrupt record.
pub fn answer(r: Result<Vec<u8>, String>) -> (a: Result<Vec<u8>, LogError>)
    ensures
        log::outcome(a) == answered(plain_outcome(r)),
{
    match r {
        Ok(bytes) => Ok(bytes),
        Err(text) => {
            let mut message = String::from_str("lz4 decompress: ");
            message.append(text.as_str());
            Err(LogError::CorruptRecord(message))
        },
    }
}

/// Whether `out` is what `compress` promises to make of `input`: behind the low four
/// bytes of the input's length, no longer than a bound, and, where the length fits
/// those four bytes, decompressed to the input.
pub open spec fn compressed_to(input: Seq<u8>, out: Seq<u8>) -> bool {
    &&& 4 < out.len() <= 24 + input.len() * 110 / 100
    &&& out.take(4) == wire::le_bytes(input.len(), 4)
    &&& input.len() <= u32::MAX ==> decompressible(out) && lz4_decompressed(out) == restored(input)
}

/// Compresses `input`. The returned bytes include a prepended 4-byte header with
/// the decompressed length.
pub fn compress(input: &[u8]) -> (out: Vec<u8>)
    requires
        input@.len() * 110 <= usize::MAX,
    ensures
        compressed_to(input@, out@),
{
    compress_prepend_size(input)
}

/// Decompresses a buffer produced by `compress`.
pub fn decompress(input: &[u8]) -> (r: Result<Vec<u8>, LogError>)
    requires
        accepted(input@),
    ensures
        log::outcome(r) == answered(decompressed(input@)),
{
    if input.len() > 4 {
        answer(decompress_size_prepended(input))
    } else {
        let empty: &[u8] = slice_subrange(input, 0, 0);
        assert(empty@ =~= Seq::<u8>::empty());
        answer(decompress_size_prepended(empty))
    }
}

/// The number in the length field at `pos`, and where the field ends.
fn read_number(block: &[u8], pos: usize) -> (r: (u128, u128))
    requires
        pos <= block@.len(),
    ensures
        r.0 == number_at(block@, pos as int),
        r.1 == after_number(block@, pos as int),
{
    let n: usize = block.len();
    let mut i: usize = pos;
    while i < n && block[i] == 0xff
        invariant
            pos <= i <= n == block@.len(),
            i - pos + run_at(block@, i as int) == run_at(block@, pos as int),
        decreases n - i,
    {
        i = i + 1;
    }
    assert(run_at(block@, i as int) == 0);
    let run: u128 = (i - pos) as u128;
    let last: u128 = if i < n {
        block[i] as u128
    } else {
        0
    };
    (255 * run + last, i as u128 + 1)
}

/// Whether a number, added to `base`, stays within the bounds of 32 bits and of a
/// machine word.
fn number_fits(number: u128, base: u64) -> (b: bool)
    ensures
        b == (number <= u32::MAX && base + number <= usize::MAX),
{
    number <= u32::MAX as u128 && base as u128 + number <= usize::MAX as u128
}

/// Whether the length fields of a block hold.
fn check_lengths(block: &[u8], size: u64) -> (b: bool)
    requires
        size <= u32::MAX,
    ensures
        b == lengths_hold(block@, 0, 0, size as int),
{
    let n: usize = block.len();
    let mut pos: usize = 0;
    let mut out: u64 = 0;
    while pos < n
        invariant
            pos <= n == block@.len(),
            out <= size <= u32::MAX,
            lengths_hold(block@, 0, 0, size as int) == lengths_hold(
                block@,
                pos as int,
                out as int,
                size as int,
            ),
        decreases n - pos,
    {
        let token: u8 = block[pos];
        let mut place: u128 = pos as u128 + 1;
        let mut filled: u64 = out + (token / 16) as u64;
        if token / 16 == 15 {
            let (number, end) = read_number(block, pos + 1);
            if !number_fits(number, 15) {
                return false;
            }
            place = end;
            filled = filled + number as u64;
        }
        place = place + (filled - out) as u128;
        if place + 2 > n as u128 || filled > size {
            return true;
        }
        let at: usize = place as usize;
        let distance: u64 = get_le(block, at, 2);
        let mut next: u128 = place + 2;
        let mut copied: u64 = 4 + (token % 16) as u64;
        if distance == 0 {
            return true;
        }
        if token % 16 == 15 {
            let (number, end) = read_number(block, at + 2);
            if !number_fits(number, filled + 19) {
                return false;
            }
            next = end;
            copied = copied + number as u64;
        }
        if filled + copied > size || distance > filled {
            return true;
        }
        out = filled + copied;
        if next >= n as u128 {
            assert(lengths_hold(block@, next as int, out as int, size as int));
            return true;
        }
        pos = next as usize;
    }
    true
}

/// Whether a buffer can be handed to `decompress`.
pub fn is_decompressible(input: &[u8]) -> (r: bool)
    ensures
        r == accepted(input@),
{
    let n: usize = input.len();
    if n <= 4 {
        return true;
    }
    let size: u64 = get_le(input, 0, 4);
    proof {
        wire::lemma_le_ranges();
    }
    assert(input@.subrange(0, 4) =~= input@.take(4));
    assert(input@.subrange(4, n as int) =~= input@.skip(4));
    size <= isize::MAX as u64 && check_lengths(slice_subrange(input, 4, n), size)
}

/// The messages by their bytes.
pub open spec fn message_views(messages: Seq<&[u8]>) -> Seq<Seq<u8>> {
    Seq::new(messages.len(), |i: int| messages[i]@)
}

/// The messages of a batch, one after the other.
pub open spec fn entries_bytes(messages: Seq<Seq<u8>>) -> Seq<u8>
    decreases messages.len(),
{
    if messages.len() == 0 {
        Seq::empty()
    } else {
        entries_bytes(messages.drop_last()) + wire::le_bytes(messages.last().len(), 4)
            + messages.last()
    }
}

/// A batch before it is compressed.
pub open spec fn batch_bytes(messages: Seq<Seq<u8>>) -> Seq<u8> {
    wire::le_bytes(messages.len(), 4) + entries_bytes(messages)
}

/// The messages of a batch before it is compressed, in its wire format.
pub fn encode_batch(messages: &[&[u8]]) -> (buf: Vec<u8>)
    ensures
        buf@ == batch_bytes(message_views(messages@)),
{
    let ghost views = message_views(messages@);
    let mut buf: Vec<u8> = Vec::new();
    put_le(&mut buf, messages.len() as u64, 4);
    let mut i: usize = 0;
    assert(buf@ =~= wire::le_bytes(messages@.len(), 4) + entries_bytes(views.take(0)));
    while i < messages.len()
        invariant
            i <= messages@.len(),
            views == message_views(messages@),
            buf@ == wire::le_bytes(messages@.len(), 4) + entries_bytes(views.take(i as int)),
        decreases messages@.len() - i,
    {
        let msg: &[u8] = messages[i];
        put_le(&mut buf, msg.len() as u64, 4);
        buf.extend_from_slice(msg);
        assert(views.take(i + 1).drop_last() =~= views.take(i as int));
        assert(views.take(i + 1).last() == msg@);
        assert(buf@ =~= wire::le_bytes(messages@.len(), 4) + entries_bytes(views.take(i + 1)));
        i = i + 1;
    }
    assert(views.take(messages@.len() as int) =~= views);
    buf
}

/// Compresses a batch of messages into a single blob.
pub fn compress_batch(messages: &[&[u8]]) -> (out: Vec<u8>)
    requires
        batch_bytes(message_views(messages@)).len() * 110 <= usize::MAX,
    ensures
        compressed_to(batch_bytes(message_views(messages@)), out@),
{
    let buf: Vec<u8> = encode_batch(messages);
    compress(buf.as_slice())
}

/// The next `count` messages from `pos` on, or what is missing.
pub open spec fn entries_from(raw: Seq<u8>, pos: int, count: nat) -> Result<
    Seq<Seq<u8>>,
    Seq<char>,
>
    decreases count,
{
    if count == 0 {
        Ok(Seq::empty())
    } else if pos + 4 > raw.len() {
        Err("batch entry length truncated"@)
    } else {
        let end = pos + 4 + wire::le_value(raw.subrange(pos, pos + 4));
        if end > raw.len() {
            Err("batch entry payload truncated"@)
        } else {
            match entries_from(raw, end, (count - 1) as nat) {
                Ok(rest) => Ok(seq![raw.subrange(pos + 4, end)] + rest),
                Err(text) => Err(text),
            }
        }
    }
}

/// The messages of a batch, or what is missing; bytes behind the last message do
/// not matter.
pub open spec fn batch_messages(raw: Seq<u8>) -> Result<Seq<Seq<u8>>, LogErrorView> {
    let r = if raw.len() < 4 {
        Err("batch header truncated"@)
    } else {
        entries_from(raw, 4, wire::le_value(raw.take(4)))
    };
    match r {
        Ok(messages) => Ok(messages),
        Err(text) => Err(LogErrorView::CorruptRecord(text)),
    }
}

/// Messages by their bytes.
pub open spec fn decoded_views(messages: Seq<Vec<u8>>) -> Seq<Seq<u8>> {
    Seq::new(messages.len(), |i: int| messages[i]@)
}

/// A result with its messages and its error by their views.
pub open spec fn batch_outcome(r: Result<Vec<Vec<u8>>, LogError>) -> Result<
    Seq<Seq<u8>>,
    LogErrorView,
> {
    match r {
        Ok(messages) => Ok(decoded_views(messages@)),
        Err(e) => Err(e@),
    }
}

/// The messages of a decompressed batch.
pub fn decode_batch(raw: Vec<u8>) -> (r: Result<Vec<Vec<u8>>, LogError>)
    ensures
        batch_outcome(r) == batch_messages(raw@),
{
    let n: usize = raw.len();
    if n < 4 {
        return Err(LogError::CorruptRecord(String::from_str("batch header truncated")));
    }
    let count: u64 = get_le(raw.as_slice(), 0, 4);
    assert(raw@.subrange(0, 4) =~= raw@.take(4));
    let mut messages: Vec<Vec<u8>> = Vec::new();
    let mut pos: usize = 4;
    let mut left: u64 = count;
    let ghost all = entries_from(raw@, 4, count as nat);
    proof {
        if let Ok(rest) = all {
            assert(decoded_views(messages@) + rest =~= rest);
        }
    }
    while left > 0
        invariant
            n == raw@.len(),
            4 <= pos <= n,
            batch_messages(raw@) == match all {
                Ok(messages) => Ok::<Seq<Seq<u8>>, LogErrorView>(messages),
                Err(text) => Err(LogErrorView::CorruptRecord(text)),
            },
            all == match entries_from(raw@, pos as int, left as nat) {
                Ok(rest) => Ok::<Seq<Seq<u8>>, Seq<char>>(decoded_views(messages@) + rest),
                Err(text) => Err(text),
            },
        decreases left,
    {
        if n - pos < 4 {
            return Err(LogError::CorruptRecord(String::from_str("batch entry length truncated")));
        }
        let len: u64 = get_le(raw.as_slice(), pos, 4);
        if ((n - pos - 4) as u64) < len {
            return Err(LogError::CorruptRecord(String::from_str("batch entry payload truncated")));
        }
        let end: usize = pos + 4 + len as usize;
        let ghost before = decoded_views(messages@);
        let message: Vec<u8> = slice_to_vec(slice_subrange(raw.as_slice(), pos + 4, end));
        messages.push(message);
        assert(decoded_views(messages@) =~= before.push(message@));
        proof {
            if let Ok(rest) = entries_from(raw@, end as int, (left - 1) as nat) {
                assert(before + (seq![message@] + rest) =~= before.push(message@) + rest);
            }
        }
        pos = end;
        left = left - 1;
    }
    assert(decoded_views(messages@) + Seq::<Seq<u8>>::empty() =~= decoded_views(messages@));
    Ok(messages)
}

/// What decompressing a batch is answered with.
pub open spec fn batch_answered(r: Result<Seq<u8>, Seq<char>>) -> Result<
    Seq<Seq<u8>>,
    LogErrorView,
> {
    match answered(r) {
        Ok(raw) => batch_messages(raw),
        Err(e) => Err(e),
    }
}

/// Decompresses a batch blob produced by `compress_batch`.
pub fn decompress_batch(input: &[u8]) -> (r: Result<Vec<Vec<u8>>, LogError>)
    requires
        accepted(input@),
    ensures
        batch_outcome(r) == batch_answered(decompressed(input@)),
{
    match decompress(input) {
        Ok(raw) => decode_batch(raw),
        Err(e) => Err(e),
    }
}

} // verus!
