//! Little-endian integers in byte sequences.

use vstd::prelude::*;

verus! {

/// The low `width` bytes of `x`, least significant byte first.
pub open spec fn le_bytes(x: nat, width: nat) -> Seq<u8>
    decreases width,
{
    if width == 0 {
        Seq::empty()
    } else {
        seq![(x % 256) as u8] + le_bytes(x / 256, (width - 1) as nat)
    }
}

/// The number whose bytes, least significant first, are `bytes`.
pub open spec fn le_value(bytes: Seq<u8>) -> nat
    decreases bytes.len(),
{
    if bytes.len() == 0 {
        0
    } else {
        bytes[0] as nat + 256 * le_value(bytes.drop_first())
    }
}

/// How many values `width` bytes can tell apart: 256 to the power of `width`.
pub open spec fn le_range(width: nat) -> nat
    decreases width,
{
    if width == 0 {
        1
    } else {
        256 * le_range((width - 1) as nat)
    }
}

/// `width` bytes are written for `width` bytes asked for.
pub proof fn lemma_le_bytes_len(x: nat, width: nat)
    ensures
        le_bytes(x, width).len() == width,
    decreases width,
{
    if width > 0 {
        lemma_le_bytes_len(x / 256, (width - 1) as nat);
    }
}

/// Reading back what was written gives the number, wherever it fits the width.
pub proof fn lemma_le_value_of_bytes(x: nat, width: nat)
    requires
        x < le_range(width),
    ensures
        le_value(le_bytes(x, width)) == x,
    decreases width,
{
    if width > 0 {
        let rest = le_bytes(x / 256, (width - 1) as nat);
        assert(le_bytes(x, width).drop_first() =~= rest);
        lemma_le_value_of_bytes(x / 256, (width - 1) as nat);
    }
}

/// Writing a number that was read gives back the bytes it was read from.
pub proof fn lemma_le_bytes_of_value(bytes: Seq<u8>)
    ensures
        le_bytes(le_value(bytes), bytes.len()) == bytes,
        le_value(bytes) < le_range(bytes.len()),
    decreases bytes.len(),
{
    if bytes.len() > 0 {
        let rest = bytes.drop_first();
        lemma_le_bytes_of_value(rest);
        assert(le_value(bytes) % 256 == bytes[0] as nat);
        assert(le_value(bytes) / 256 == le_value(rest));
        assert(le_bytes(le_value(bytes), bytes.len()) =~= seq![bytes[0]] + rest);
        assert(seq![bytes[0]] + rest =~= bytes);
    }
}

/// The ranges of the widths in use.
pub proof fn lemma_le_ranges()
    ensures
        le_range(1) == 0x100,
        le_range(2) == 0x1_0000,
        le_range(4) == 0x1_0000_0000,
        le_range(8) == 0x1_0000_0000_0000_0000,
{
    reveal_with_fuel(le_range, 9);
}

proof fn lemma_le_range_monotone(a: nat, b: nat)
    requires
        a <= b,
    ensures
        le_range(a) <= le_range(b),
        1 <= le_range(a),
    decreases b,
{
    if a > 0 {
        lemma_le_range_monotone((a - 1) as nat, (b - 1) as nat);
    } else if b > 0 {
        lemma_le_range_monotone(0, (b - 1) as nat);
    }
}

proof fn lemma_le_bytes_split(x: nat, done: nat, width: nat)
    requires
        done < width,
    ensures
        le_bytes(x, done + 1) == le_bytes(x, done).push(((x / le_range(done)) % 256) as u8),
        le_range(done) > 0,
    decreases done,
{
    lemma_le_range_monotone(done, done);
    if done > 0 {
        lemma_le_bytes_split(x / 256, (done - 1) as nat, (width - 1) as nat);
        let m = le_range((done - 1) as nat) as int;
        lemma_le_range_monotone((done - 1) as nat, done);
        vstd::arithmetic::div_mod::lemma_div_denominator(x as int, 256, m);
        assert((x / 256) / le_range((done - 1) as nat) == x / le_range(done));
        assert(le_bytes(x, done + 1) =~= le_bytes(x, done).push(
            ((x / le_range(done)) % 256) as u8,
        ));
    } else {
        reveal_with_fuel(le_bytes, 2);
        assert(x / 1 == x) by (nonlinear_arith);
        assert(le_bytes(x, 1) =~= le_bytes(x, 0).push((x % 256) as u8));
    }
}

/// Appends the low `width` bytes of `x`, least significant first.
pub fn put_le(buf: &mut Vec<u8>, x: u64, width: usize)
    requires
        width <= 8,
    ensures
        final(buf)@ == old(buf)@ + le_bytes(x as nat, width as nat),
{
    let mut rest: u64 = x;
    let mut i: usize = 0;
    assert(x as nat / le_range(0) == x) by {
        assert(x as nat / 1 == x as nat) by (nonlinear_arith);
    }
    assert(buf@ =~= old(buf)@ + le_bytes(x as nat, 0));
    while i < width
        invariant
            i <= width <= 8,
            le_range(i as nat) > 0,
            rest as nat == x as nat / le_range(i as nat),
            buf@ == old(buf)@ + le_bytes(x as nat, i as nat),
        decreases width - i,
    {
        proof {
            lemma_le_bytes_split(x as nat, i as nat, width as nat);
            lemma_le_range_monotone((i + 1) as nat, (i + 1) as nat);
            let m = le_range(i as nat) as int;
            vstd::arithmetic::div_mod::lemma_div_denominator(x as int, m, 256);
            assert(m * 256 == le_range((i + 1) as nat));
        }
        let ghost before = buf@;
        buf.push((rest % 256) as u8);
        assert(buf@ =~= old(buf)@ + le_bytes(x as nat, (i + 1) as nat));
        rest = rest / 256;
        i = i + 1;
    }
}

/// The number held by the `width` bytes of `buf` from `pos` on.
pub fn get_le(buf: &[u8], pos: usize, width: usize) -> (x: u64)
    requires
        width <= 8,
        pos + width <= buf@.len(),
    ensures
        x == le_value(buf@.subrange(pos as int, pos + width)),
        (x as nat) < le_range(width as nat),
{
    let mut acc: u64 = 0;
    let mut i: usize = width;
    assert(buf@.subrange(pos + width, pos + width) =~= Seq::<u8>::empty());
    assert(pos + width <= buf.len());
    while 0 < i
        invariant
            0 <= i <= width <= 8,
            pos + width <= buf@.len(),
            pos + width <= usize::MAX,
            acc == le_value(buf@.subrange(pos + i, pos + width)),
            (acc as nat) < le_range((width - i) as nat),
        decreases i,
    {
        proof {
            lemma_le_ranges();
            lemma_le_range_monotone((width - i) as nat, 7);
            assert(le_range(8) == 256 * le_range(7));
        }
        i = i - 1;
        let ghost tail = buf@.subrange(pos + i, pos + width);
        assert(tail.drop_first() =~= buf@.subrange(pos + i + 1, pos + width));
        acc = acc * 256 + buf[pos + i] as u64;
    }
    acc
}

} // verus!
