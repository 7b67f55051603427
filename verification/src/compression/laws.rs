//! What compression promises: messages come back as they were packed.

use vstd::prelude::*;

use super::lz4;
use crate::log::LogErrorView;
use crate::wire;

verus! {

/// Whether the number of messages and their lengths fit the bytes they have.
pub open spec fn batch_fits(messages: Seq<Seq<u8>>) -> bool {
    &&& messages.len() < 0x1_0000_0000
    &&& forall|i: int| 0 <= i < messages.len() ==> (#[trigger] messages[i]).len() < 0x1_0000_0000
}

proof fn lemma_entries_prefix(messages: Seq<Seq<u8>>, k: int)
    requires
        0 <= k <= messages.len(),
    ensures
        lz4::entries_bytes(messages.take(k)).len() <= lz4::entries_bytes(messages).len(),
        lz4::entries_bytes(messages).take(lz4::entries_bytes(messages.take(k)).len() as int)
            == lz4::entries_bytes(messages.take(k)),
    decreases messages.len(),
{
    if k == messages.len() {
        assert(messages.take(k) =~= messages);
        let all = lz4::entries_bytes(messages);
        assert(all.take(all.len() as int) =~= all);
    } else {
        let front = messages.drop_last();
        lemma_entries_prefix(front, k);
        assert(front.take(k) =~= messages.take(k));
        let n = lz4::entries_bytes(messages.take(k)).len() as int;
        assert(lz4::entries_bytes(messages).take(n) =~= lz4::entries_bytes(front).take(n));
    }
}

/// From the place of the `k`th message on, the rest of the messages is found.
proof fn lemma_entries_stand(messages: Seq<Seq<u8>>, rest: Seq<u8>, k: int)
    requires
        0 <= k <= messages.len(),
        batch_fits(messages),
    ensures
        lz4::entries_from(
            lz4::batch_bytes(messages) + rest,
            4int + lz4::entries_bytes(messages.take(k)).len(),
            (messages.len() - k) as nat,
        ) == Ok::<Seq<Seq<u8>>, Seq<char>>(messages.skip(k)),
    decreases messages.len() - k,
{
    let raw = lz4::batch_bytes(messages) + rest;
    if k == messages.len() {
        assert(messages.skip(k) =~= Seq::<Seq<u8>>::empty());
    } else {
        let message = messages[k];
        let before = lz4::entries_bytes(messages.take(k));
        let upto = lz4::entries_bytes(messages.take(k + 1));
        assert(messages.take(k + 1).drop_last() =~= messages.take(k));
        assert(messages.take(k + 1).last() == message);
        lemma_entries_prefix(messages, k + 1);
        wire::lemma_le_bytes_len(messages.len(), 4);
        wire::lemma_le_bytes_len(message.len(), 4);
        wire::lemma_le_ranges();
        wire::lemma_le_value_of_bytes(message.len(), 4);
        let pos = 4 + before.len() as int;
        let end = 4 + upto.len() as int;
        let all = lz4::entries_bytes(messages);
        assert(raw.subrange(4, end) =~= all.take(upto.len() as int));
        assert(raw.subrange(pos, pos + 4) =~= upto.subrange(
            before.len() as int,
            before.len() + 4int,
        ));
        assert(raw.subrange(pos, pos + 4) =~= wire::le_bytes(message.len(), 4));
        assert(raw.subrange(pos + 4, end) =~= upto.subrange(
            before.len() + 4int,
            upto.len() as int,
        ));
        assert(raw.subrange(pos + 4, end) =~= message);
        lemma_entries_stand(messages, rest, k + 1);
        assert(seq![message] + messages.skip(k + 1) =~= messages.skip(k));
    }
}

/// Reading a batch gives back the messages that it was made of, in order, whatever
/// follows it.
pub proof fn law_batch_round_trip(messages: Seq<Seq<u8>>, rest: Seq<u8>)
    requires
        batch_fits(messages),
    ensures
        lz4::batch_messages(lz4::batch_bytes(messages) + rest) == Ok::<Seq<Seq<u8>>, LogErrorView>(
            messages,
        ),
{
    let raw = lz4::batch_bytes(messages) + rest;
    wire::lemma_le_bytes_len(messages.len(), 4);
    wire::lemma_le_ranges();
    wire::lemma_le_value_of_bytes(messages.len(), 4);
    assert(raw.take(4) =~= wire::le_bytes(messages.len(), 4));
    lemma_entries_stand(messages, rest, 0);
    assert(messages.take(0) =~= Seq::<Seq<u8>>::empty());
    assert(messages.skip(0) =~= messages);
}

/// A batch whose framed size fits four bytes has as many messages, and as long ones,
/// as fit four bytes.
proof fn lemma_framed_size(messages: Seq<Seq<u8>>)
    ensures
        lz4::entries_bytes(messages).len() >= 4 * messages.len(),
        forall|i: int|
            0 <= i < messages.len() ==> (#[trigger] messages[i]).len() <= lz4::entries_bytes(
                messages,
            ).len(),
    decreases messages.len(),
{
    if messages.len() > 0 {
        let front = messages.drop_last();
        lemma_framed_size(front);
        wire::lemma_le_bytes_len(messages.last().len(), 4);
        assert forall|i: int| 0 <= i < messages.len() implies (#[trigger] messages[i]).len()
            <= lz4::entries_bytes(messages).len() by {
            if i < front.len() {
                assert(front[i] == messages[i]);
            }
        }
    }
}

/// What `compress` makes of an input can be handed to `decompress`, and is answered
/// with the input, wherever its length fits four bytes.
pub proof fn law_record_survives_compression(input: Seq<u8>, blob: Seq<u8>)
    requires
        input.len() <= u32::MAX,
        lz4::compressed_to(input, blob),
    ensures
        lz4::accepted(blob),
        lz4::answered(lz4::decompressed(blob)) == Ok::<Seq<u8>, LogErrorView>(input),
{
}

/// What `compress_batch` makes of messages can be handed to `decompress_batch`, and
/// is answered with the messages, in order, wherever their framed size fits four
/// bytes.
pub proof fn law_batch_survives_compression(messages: Seq<Seq<u8>>, blob: Seq<u8>)
    requires
        lz4::batch_bytes(messages).len() <= u32::MAX,
        lz4::compressed_to(lz4::batch_bytes(messages), blob),
    ensures
        lz4::accepted(blob),
        lz4::batch_answered(lz4::decompressed(blob)) == Ok::<Seq<Seq<u8>>, LogErrorView>(messages),
{
    lemma_framed_size(messages);
    law_batch_round_trip(messages, Seq::empty());
    assert(lz4::batch_bytes(messages) + Seq::<u8>::empty() =~= lz4::batch_bytes(messages));
}

/// The bytes of messages, taken apart at the front.
proof fn lemma_entries_bytes_front(message: Seq<u8>, rest: Seq<Seq<u8>>)
    ensures
        lz4::entries_bytes(seq![message] + rest) == wire::le_bytes(message.len(), 4) + message
            + lz4::entries_bytes(rest),
    decreases rest.len(),
{
    let all = seq![message] + rest;
    if rest.len() == 0 {
        assert(all.drop_last() =~= Seq::<Seq<u8>>::empty());
        assert(lz4::entries_bytes(all.drop_last()) =~= Seq::<u8>::empty());
        assert(lz4::entries_bytes(all) =~= wire::le_bytes(message.len(), 4) + message
            + lz4::entries_bytes(rest));
    } else {
        lemma_entries_bytes_front(message, rest.drop_last());
        assert(all.drop_last() =~= seq![message] + rest.drop_last());
        assert(lz4::entries_bytes(all) =~= wire::le_bytes(message.len(), 4) + message
            + lz4::entries_bytes(rest));
    }
}

/// Where messages are found, their bytes stand.
proof fn lemma_found_messages_stand(raw: Seq<u8>, pos: int, count: nat)
    requires
        0 <= pos <= raw.len(),
        lz4::entries_from(raw, pos, count) is Ok,
    ensures
        ({
            let messages = lz4::entries_from(raw, pos, count)->Ok_0;
            let bytes = lz4::entries_bytes(messages);
            &&& messages.len() == count
            &&& pos + bytes.len() <= raw.len()
            &&& raw.subrange(pos, pos + bytes.len()) == bytes
            &&& forall|i: int|
                0 <= i < messages.len() ==> (#[trigger] messages[i]).len() < 0x1_0000_0000
        }),
    decreases count,
{
    if count == 0 {
        assert(raw.subrange(pos, pos) =~= Seq::<u8>::empty());
    } else {
        let field = raw.subrange(pos, pos + 4);
        let end = pos + 4 + wire::le_value(field);
        let message = raw.subrange(pos + 4, end);
        lemma_found_messages_stand(raw, end, (count - 1) as nat);
        let rest = lz4::entries_from(raw, end, (count - 1) as nat)->Ok_0;
        wire::lemma_le_bytes_of_value(field);
        wire::lemma_le_ranges();
        lemma_entries_bytes_front(message, rest);
        let bytes = lz4::entries_bytes(seq![message] + rest);
        let tail = lz4::entries_bytes(rest);
        assert(raw.subrange(pos, pos + bytes.len()) =~= field + message + raw.subrange(
            end,
            end + tail.len(),
        ));
    }
}

/// A decompressed batch is answered with these messages exactly where it consists
/// of their framing and whatever follows; otherwise it is corrupt.
pub proof fn law_batch_is_read_where_it_is_framed(raw: Seq<u8>, messages: Seq<Seq<u8>>)
    ensures
        lz4::batch_messages(raw) == Ok::<Seq<Seq<u8>>, LogErrorView>(messages) <==> (batch_fits(
            messages,
        ) && exists|rest: Seq<u8>| raw == #[trigger] (lz4::batch_bytes(messages) + rest)),
        lz4::batch_messages(raw) is Err ==> lz4::batch_messages(raw)->Err_0 is CorruptRecord,
{
    if lz4::batch_messages(raw) == Ok::<Seq<Seq<u8>>, LogErrorView>(messages) {
        let count = wire::le_value(raw.take(4));
        lemma_found_messages_stand(raw, 4, count);
        wire::lemma_le_bytes_of_value(raw.take(4));
        wire::lemma_le_ranges();
        let end = 4 + lz4::entries_bytes(messages).len() as int;
        assert(lz4::batch_bytes(messages) =~= raw.take(end)) by {
            assert(raw.take(end) =~= raw.take(4) + raw.subrange(4, end));
        }
        assert(raw =~= lz4::batch_bytes(messages) + raw.skip(end));
    }
    if batch_fits(messages) && exists|rest: Seq<u8>|
        raw == #[trigger] (lz4::batch_bytes(messages) + rest) {
        let rest = choose|rest: Seq<u8>| raw == #[trigger] (lz4::batch_bytes(messages) + rest);
        law_batch_round_trip(messages, rest);
    }
}

/// The layout of a batch: the number of messages in four bytes, and then each message behind
/// its length in four bytes.
pub proof fn law_batch_layout(messages: Seq<Seq<u8>>, message: Seq<u8>)
    ensures
        lz4::batch_bytes(messages).take(4) == wire::le_bytes(messages.len(), 4),
        lz4::batch_bytes(messages).skip(4) == lz4::entries_bytes(messages),
        lz4::entries_bytes(Seq::<Seq<u8>>::empty()) == Seq::<u8>::empty(),
        lz4::entries_bytes(messages.push(message)) == lz4::entries_bytes(messages)
            + wire::le_bytes(message.len(), 4) + message,
{
    wire::lemma_le_bytes_len(messages.len(), 4);
    assert(lz4::batch_bytes(messages).take(4) =~= wire::le_bytes(messages.len(), 4));
    assert(lz4::batch_bytes(messages).skip(4) =~= lz4::entries_bytes(messages));
    assert(messages.push(message).drop_last() =~= messages);
}

/// What a batch that was cut off is answered: without a whole count the header is missing;
/// otherwise it is said of the first message that is not there whether its length is missing
/// or its bytes.
pub proof fn law_cut_batch_is_refused(messages: Seq<Seq<u8>>, count: nat, tail: Seq<u8>, short: Seq<u8>)
    requires
        batch_fits(messages),
        messages.len() < count < 0x1_0000_0000,
        tail.len() < 4 || 4 + wire::le_value(tail.subrange(0, 4)) > tail.len(),
        short.len() < 4,
    ensures
        lz4::batch_messages(short) == Err::<Seq<Seq<u8>>, LogErrorView>(
            LogErrorView::CorruptRecord("batch header truncated"@),
        ),
        ({
            let raw = wire::le_bytes(count, 4) + lz4::entries_bytes(messages) + tail;
            lz4::batch_messages(raw) == Err::<Seq<Seq<u8>>, LogErrorView>(
                LogErrorView::CorruptRecord(
                    if tail.len() < 4 {
                        "batch entry length truncated"@
                    } else {
                        "batch entry payload truncated"@
                    },
                ),
            )
        }),
{
    let raw = wire::le_bytes(count, 4) + lz4::entries_bytes(messages) + tail;
    wire::lemma_le_bytes_len(count, 4);
    wire::lemma_le_ranges();
    wire::lemma_le_value_of_bytes(count, 4);
    assert(raw.take(4) =~= wire::le_bytes(count, 4));
    lemma_cut_entries(messages, wire::le_bytes(count, 4), tail, 0, count);
    assert(messages.take(0) =~= Seq::<Seq<u8>>::empty());
}

proof fn lemma_cut_entries(
    messages: Seq<Seq<u8>>,
    head: Seq<u8>,
    tail: Seq<u8>,
    k: int,
    count: nat,
)
    requires
        batch_fits(messages),
        head.len() == 4,
        0 <= k <= messages.len(),
        messages.len() < count,
        tail.len() < 4 || 4 + wire::le_value(tail.subrange(0, 4)) > tail.len(),
    ensures
        lz4::entries_from(
            head + lz4::entries_bytes(messages) + tail,
            4int + lz4::entries_bytes(messages.take(k)).len(),
            (count - k) as nat,
        ) == Err::<Seq<Seq<u8>>, Seq<char>>(
            if tail.len() < 4 {
                "batch entry length truncated"@
            } else {
                "batch entry payload truncated"@
            },
        ),
    decreases messages.len() - k,
{
    let raw = head + lz4::entries_bytes(messages) + tail;
    let before = lz4::entries_bytes(messages.take(k));
    let pos = 4 + before.len() as int;
    if k == messages.len() {
        assert(messages.take(k) =~= messages);
        if tail.len() >= 4 {
            assert(raw.subrange(pos, pos + 4) =~= tail.subrange(0, 4));
        }
    } else {
        let message = messages[k];
        let upto = lz4::entries_bytes(messages.take(k + 1));
        assert(messages.take(k + 1).drop_last() =~= messages.take(k));
        assert(messages.take(k + 1).last() == message);
        lemma_entries_prefix(messages, k + 1);
        wire::lemma_le_bytes_len(message.len(), 4);
        wire::lemma_le_ranges();
        wire::lemma_le_value_of_bytes(message.len(), 4);
        let end = 4 + upto.len() as int;
        let all = lz4::entries_bytes(messages);
        assert(raw.subrange(4, end) =~= all.take(upto.len() as int));
        assert(raw.subrange(pos, pos + 4) =~= raw.subrange(4, end).subrange(pos - 4, pos));
        assert(raw.subrange(pos, pos + 4) =~= wire::le_bytes(message.len(), 4));
        lemma_cut_entries(messages, head, tail, k + 1, count);
    }
}

/// What a decompression is answered: its bytes, or that the record is corrupt, with the cause.
/// A buffer of at most four bytes holds nothing to decompress.
pub proof fn law_answers_to_a_decompression(bytes: Seq<u8>, cause: Seq<char>, input: Seq<u8>)
    ensures
        lz4::answered(Ok::<Seq<u8>, Seq<char>>(bytes)) == Ok::<Seq<u8>, LogErrorView>(bytes),
        lz4::answered(Err::<Seq<u8>, Seq<char>>(cause)) == Err::<Seq<u8>, LogErrorView>(
            LogErrorView::CorruptRecord("lz4 decompress: "@ + cause),
        ),
        input.len() <= 4 ==> lz4::decompressed(input) == Err::<Seq<u8>, Seq<char>>(
            "expected another byte, found none"@,
        ),
        input.len() > 4 ==> lz4::decompressed(input) == lz4::lz4_decompressed(input),
        lz4::batch_answered(Ok::<Seq<u8>, Seq<char>>(bytes)) == lz4::batch_messages(bytes),
        lz4::batch_answered(Err::<Seq<u8>, Seq<char>>(cause)) == Err::<
            Seq<Seq<u8>>,
            LogErrorView,
        >(LogErrorView::CorruptRecord("lz4 decompress: "@ + cause)),
{
}

proof fn lemma_run_is_short(block: Seq<u8>, pos: int)
    requires
        0 <= pos,
    ensures
        pos <= block.len() ==> pos + lz4::run_at(block, pos) <= block.len(),
        pos > block.len() ==> lz4::run_at(block, pos) == 0,
    decreases
            (if pos < block.len() {
                block.len() - pos
            } else {
                0
            }),
{
    if pos < block.len() {
        lemma_run_is_short(block, pos + 1);
    }
}

proof fn lemma_short_lengths_hold(block: Seq<u8>, pos: int, out: int, size: int)
    requires
        usize::BITS == 64,
        block.len() <= 16_843_008,
        0 <= pos,
        0 <= out <= size <= u32::MAX,
    ensures
        lz4::lengths_hold(block, pos, out, size),
    decreases
            (if pos < block.len() {
                block.len() - pos
            } else {
                0
            }),
{
    if pos < block.len() {
        lemma_run_is_short(block, pos + 1);
        let long_literals = block[pos] / 16 == 15;
        let start = if long_literals {
            lz4::after_number(block, pos + 1)
        } else {
            pos + 1
        };
        let literals = block[pos] / 16 + if long_literals {
            lz4::number_at(block, pos + 1)
        } else {
            0
        };
        let place = start + literals;
        let filled = out + literals;
        if place + 2 <= block.len() && filled <= size {
            lemma_run_is_short(block, place + 2);
            let long_match = block[pos] % 16 == 15;
            let next = if long_match {
                lz4::after_number(block, place + 2)
            } else {
                place + 2
            };
            let copied = 4 + block[pos] % 16 + if long_match {
                lz4::number_at(block, place + 2)
            } else {
                0
            };
            if filled + copied <= size {
                lemma_short_lengths_hold(block, next, filled + copied, size);
            }
        }
    }
}

/// A buffer that is too short for a length to run out of 32 bits can be decompressed,
/// whatever it holds, on a machine of 64 bits.
pub proof fn law_short_buffers_are_accepted(input: Seq<u8>)
    requires
        usize::BITS == 64,
        input.len() <= 16_843_008,
    ensures
        lz4::accepted(input),
        lz4::decompressible(input),
{
    if input.len() >= 4 {
        wire::lemma_le_bytes_of_value(input.take(4));
        wire::lemma_le_ranges();
        lemma_short_lengths_hold(input.skip(4), 0, 0, wire::le_value(input.take(4)) as int);
    }
}

proof fn lemma_long_run(block: Seq<u8>, pos: int, n: nat)
    requires
        0 <= pos,
        pos + n <= block.len(),
        forall|j: int| pos <= j < pos + n ==> #[trigger] block[j] == 0xff,
    ensures
        lz4::run_at(block, pos) >= n,
    decreases n,
{
    if n > 0 {
        assert(block[pos] == 0xff);
        lemma_long_run(block, pos + 1, (n - 1) as nat);
    }
}

/// A buffer that starts with a length of more than 32 bits is not accepted.
pub proof fn law_overlong_length_is_not_accepted(input: Seq<u8>)
    requires
        input.len() > 4 + 1 + 16_843_010,
        input[4] >= 0xf0,
        forall|j: int| 5 <= j < 5 + 16_843_010 ==> #[trigger] input[j] == 0xff,
    ensures
        !lz4::accepted(input),
{
    let block = input.skip(4);
    assert forall|j: int| 1 <= j < 1 + 16_843_010 implies #[trigger] block[j] == 0xff by {
        assert(input[j + 4] == 0xff);
    }
    lemma_long_run(block, 1, 16_843_010);
    assert(block[0] == input[4]);
    assert(lz4::number_at(block, 1) >= 255 * 16_843_010);
}

proof fn lemma_run_behind(front: Seq<u8>, block: Seq<u8>, pos: int)
    requires
        0 <= pos,
    ensures
        lz4::run_at(front + block, front.len() + pos) == lz4::run_at(block, pos),
        lz4::number_at(front + block, front.len() + pos) == lz4::number_at(block, pos),
    decreases block.len() - pos,
{
    if pos < block.len() && block[pos] == 0xff {
        lemma_run_behind(front, block, pos + 1);
    }
}

proof fn lemma_lengths_behind(front: Seq<u8>, block: Seq<u8>, pos: int, out: int, size: int)
    requires
        0 <= pos,
    ensures
        lz4::lengths_hold(front + block, front.len() + pos, out, size) == lz4::lengths_hold(
            block,
            pos,
            out,
            size,
        ),
    decreases
            (if pos < block.len() {
                block.len() - pos
            } else {
                0
            }),
{
    if pos < block.len() {
        let n = front.len();
        let all = front + block;
        lemma_run_behind(front, block, pos + 1);
        let long_literals = block[pos] / 16 == 15;
        let start = if long_literals {
            lz4::after_number(block, pos + 1)
        } else {
            pos + 1
        };
        let literals = block[pos] / 16 + if long_literals {
            lz4::number_at(block, pos + 1)
        } else {
            0
        };
        let place = start + literals;
        let filled = out + literals;
        if place + 2 <= block.len() {
            assert(all.subrange(n + place, n + place + 2) =~= block.subrange(place, place + 2));
            lemma_run_behind(front, block, place + 2);
            let long_match = block[pos] % 16 == 15;
            let next = if long_match {
                lz4::after_number(block, place + 2)
            } else {
                place + 2
            };
            let copied = 4 + block[pos] % 16 + if long_match {
                lz4::number_at(block, place + 2)
            } else {
                0
            };
            lemma_lengths_behind(front, block, next, filled + copied, size);
        }
    }
}

/// Of a block only what is not decompressed yet matters to what is still to come.
pub proof fn law_only_what_is_left_matters(front: Seq<u8>, block: Seq<u8>, out: int, size: int)
    ensures
        lz4::lengths_hold(front + block, front.len() as int, out, size) == lz4::lengths_hold(
            block,
            0,
            out,
            size,
        ),
{
    lemma_lengths_behind(front, block, 0, out, size);
}

/// A sequence with a token, its literals, the distance of its match, and what comes behind.
pub open spec fn sequence(token: u8, literals: Seq<u8>, distance: nat, rest: Seq<u8>) -> Seq<u8> {
    seq![token] + literals + wire::le_bytes(distance, 2) + rest
}

/// A sequence without length fields, whose match lies in what was decompressed and fits the
/// claimed length, leaves it to the rest of the block whether the lengths hold. One with a
/// distance of 0 ends the decompression.
pub proof fn law_short_sequences_are_passed_over(
    token: u8,
    literals: Seq<u8>,
    distance: nat,
    rest: Seq<u8>,
    out: int,
    size: int,
)
    requires
        literals.len() < 15,
        token / 16 == literals.len(),
        token % 16 < 15,
        distance < 0x1_0000,
        distance <= out + literals.len(),
        out + literals.len() + 4 + token % 16 <= size,
    ensures
        distance > 0 ==> lz4::lengths_hold(sequence(token, literals, distance, rest), 0, out, size)
            == lz4::lengths_hold(rest, 0, out + literals.len() + 4 + token % 16, size),
        distance == 0 ==> lz4::lengths_hold(
            sequence(token, literals, distance, rest),
            0,
            out,
            size,
        ),
{
    let block = sequence(token, literals, distance, rest);
    let front = seq![token] + literals + wire::le_bytes(distance, 2);
    let place = 1 + literals.len() as int;
    wire::lemma_le_bytes_len(distance, 2);
    wire::lemma_le_ranges();
    wire::lemma_le_value_of_bytes(distance, 2);
    assert(block.subrange(place, place + 2) =~= wire::le_bytes(distance, 2));
    assert(block[0] == token);
    assert(block =~= front + rest);
    law_only_what_is_left_matters(front, rest, out + literals.len() + 4 + token % 16, size);
}

/// The lengths of a block do not hold if its first match has a length of more than 32 bits.
pub proof fn law_overlong_match_is_not_accepted(
    token: u8,
    literals: Seq<u8>,
    distance: nat,
    rest: Seq<u8>,
    out: int,
    size: int,
)
    requires
        literals.len() < 15,
        token / 16 == literals.len(),
        token % 16 == 15,
        0 < distance < 0x1_0000,
        out + literals.len() <= size,
        rest.len() >= 16_843_010,
        forall|j: int| 0 <= j < 16_843_010 ==> #[trigger] rest[j] == 0xff,
    ensures
        !lz4::lengths_hold(sequence(token, literals, distance, rest), 0, out, size),
{
    let block = sequence(token, literals, distance, rest);
    let front = seq![token] + literals + wire::le_bytes(distance, 2);
    let place = 1 + literals.len() as int;
    wire::lemma_le_bytes_len(distance, 2);
    wire::lemma_le_ranges();
    wire::lemma_le_value_of_bytes(distance, 2);
    assert(block.subrange(place, place + 2) =~= wire::le_bytes(distance, 2));
    assert(block[0] == token);
    assert(block =~= front + rest);
    lemma_long_run(rest, 0, 16_843_010);
    lemma_run_behind(front, rest, 0);
    assert(lz4::number_at(block, place + 2) >= 255 * 16_843_010);
}

} // verus!
