//! Reassembly of handshake messages from the fragments that arrive in DTLS records.

use crate::bits;
use crate::error::Error;
use crate::record;
use crate::record::{
    ContentType, HandshakeHeader, HandshakeType, RecordLayerHeader, HANDSHAKE_HEADER_LENGTH,
    RECORD_LAYER_HEADER_SIZE,
};
use std::collections::HashMap;
use vstd::prelude::*;

verus! {

broadcast use vstd::std_specs::hash::group_hash_axioms;

/// 2 MB: what all buffered messages may take, counting each one's storage and bookkeeping.
pub const FRAGMENT_BUFFER_MAX_SIZE: usize = 2_000_000;

/// Largest handshake message body that will be reassembled. Certificate chains are the only
/// messages that get anywhere near this.
pub const FRAGMENT_BUFFER_MAX_MESSAGE_LENGTH: usize = 131072;

/// How far past the next expected message a message may be buffered. A flight carries at most a
/// handful of messages, so anything further ahead cannot be part of it.
pub const FRAGMENT_BUFFER_MAX_MESSAGES_AHEAD: u16 = 16;

/// Fixed bookkeeping charged per buffered message on top of its byte buffers: its fields, and the
/// number it is kept under.
pub const PENDING_MESSAGE_OVERHEAD: usize = 90;

/// One fragment of a handshake message.
pub struct Fragment {
    /// Its header.
    pub header: HandshakeHeader,
    /// Its bytes.
    pub payload: Seq<u8>,
}

/// The fragment that `bytes` begins with, and the bytes after it. The fragment's bytes must lie
/// within both the record and the message that its header describes.
pub open spec fn split(bytes: Seq<u8>) -> Result<(Fragment, Seq<u8>), Error> {
    let header = HandshakeHeader::read(bytes);
    let end = 12 + header.fragment_length;
    if bytes.len() < 12 {
        Err(Error::ErrBufferTooSmall)
    } else if end > bytes.len() || header.fragment_offset + header.fragment_length
        > header.length {
        Err(Error::ErrLengthMismatch)
    } else {
        Ok(
            (
                Fragment { header, payload: bytes.subrange(12, end) },
                bytes.subrange(end, bytes.len() as int),
            ),
        )
    }
}

/// The fragments that `bytes` is made of, or what is wrong with the first one that is malformed.
pub open spec fn fragments(bytes: Seq<u8>) -> Result<Seq<Fragment>, Error>
    decreases bytes.len(),
{
    if bytes.len() == 0 {
        Ok(Seq::empty())
    } else {
        match split(bytes) {
            Err(e) => Err(e),
            Ok((first, rest)) => match fragments(rest) {
                Err(e) => Err(e),
                Ok(others) => Ok(seq![first] + others),
            },
        }
    }
}

/// Whether a fragment is the whole message.
pub open spec fn is_unfragmented(first: HandshakeHeader) -> bool {
    first.fragment_offset == 0 && first.fragment_length == first.length
}

/// What a message begun by the fragment `first` counts against the memory that may be taken: the
/// rebuilt message, a bit for each of its bytes where it comes in parts, and the bookkeeping.
pub open spec fn size_for(first: HandshakeHeader) -> int {
    let received = if is_unfragmented(first) {
        0
    } else {
        (first.length + 7) / 8
    };
    12 + first.length + received + PENDING_MESSAGE_OVERHEAD
}

/// The model of a message being reassembled.
#[verifier::ext_equal]
pub struct MessageView {
    /// What the message is.
    pub handshake_type: HandshakeType,
    /// Its number.
    pub message_sequence: u16,
    /// The epoch that its fragments came in.
    pub epoch: u16,
    /// Its bytes, as far as they have arrived.
    pub body: Seq<u8>,
    /// Which of its bytes have arrived.
    pub got: Seq<bool>,
    /// What it counts against the memory that may be taken.
    pub charge: int,
}

impl MessageView {
    /// A message that nothing has arrived of.
    pub open spec fn begun(epoch: u16, first: HandshakeHeader) -> MessageView {
        MessageView {
            handshake_type: first.handshake_type,
            message_sequence: first.message_sequence,
            epoch,
            body: Seq::new(first.length as nat, |i: int| 0u8),
            got: Seq::new(first.length as nat, |i: int| false),
            charge: size_for(first),
        }
    }

    /// Whether every byte has arrived.
    pub open spec fn complete(self) -> bool {
        forall|i: int| 0 <= i < self.got.len() ==> #[trigger] self.got[i]
    }

    /// The message after a fragment arrived: its bytes are taken in, and where they overlap with
    /// earlier ones replace them. Once the message is complete, fragments are ignored.
    pub open spec fn write(self, offset: int, payload: Seq<u8>) -> MessageView {
        if payload.len() == 0 || self.complete() {
            self
        } else {
            MessageView {
                body: Seq::new(
                    self.body.len(),
                    |i: int|
                        if offset <= i < offset + payload.len() {
                            payload[i - offset]
                        } else {
                            self.body[i]
                        },
                ),
                got: Seq::new(
                    self.got.len(),
                    |i: int| self.got[i] || offset <= i < offset + payload.len(),
                ),
                ..self
            }
        }
    }

    /// The header of the rebuilt message: in one piece.
    pub open spec fn header(self) -> HandshakeHeader {
        HandshakeHeader {
            handshake_type: self.handshake_type,
            length: self.body.len() as u32,
            message_sequence: self.message_sequence,
            fragment_offset: 0,
            fragment_length: self.body.len() as u32,
        }
    }
}

/// Bit `i` of a byte string, from the lowest bit of its first byte on.
pub open spec fn bit_of(bits: Seq<u8>, i: int) -> bool {
    bits::bit(bits[i / 8] as u64, i % 8)
}

/// How many of the first `n` bits are set.
pub open spec fn set_count(bits: Seq<u8>, n: nat) -> nat
    decreases n,
{
    if n == 0 {
        0
    } else {
        set_count(bits, (n - 1) as nat) + if bit_of(bits, n - 1) {
            1nat
        } else {
            0nat
        }
    }
}

/// How many of the bits from `start` up to but not including `end` are clear.
pub open spec fn clear_between(bits: Seq<u8>, start: int, end: int) -> nat
    decreases end - start,
{
    if end <= start {
        0
    } else {
        clear_between(bits, start, end - 1) + if bit_of(bits, end - 1) {
            0nat
        } else {
            1nat
        }
    }
}

/// The clear bits of a byte within a range, counted in a word that has a bit for each of them.
proof fn lemma_count_byte(bits: Seq<u8>, start: int, i: int, n: int, word: u64, m: int)
    requires
        0 <= start <= i,
        0 <= m <= n,
        i % 8 + n <= 8,
        forall|j: int|
            0 <= j < 64 ==> #[trigger] bits::bit(word, j) == (i % 8 <= j < i % 8 + n && !bit_of(
                bits,
                i - i % 8 + j,
            )),
    ensures
        clear_between(bits, start, i + m) == clear_between(bits, start, i) + bits::ones_below(
            word,
            (i % 8 + m) as nat,
        ),
    decreases m,
{
    if m == 0 {
        crate::bits::lemma_ones_skip(word, 0, (i % 8) as nat);
    } else {
        lemma_count_byte(bits, start, i, n, word, m - 1);
        assert(bits::bit(word, i % 8 + (m - 1)) == !bit_of(bits, i + m - 1));
    }
}

/// Sets the bits for body bytes `start..end`, returning how many were not already set.
fn mark_received(bits: &mut Vec<u8>, start: usize, end: usize) -> (added: usize)
    requires
        start <= end <= old(bits)@.len() * 8,
    ensures
        final(bits)@.len() == old(bits)@.len(),
        forall|i: int|
            0 <= i < old(bits)@.len() * 8 ==> #[trigger] bit_of(final(bits)@, i) == (bit_of(
                old(bits)@,
                i,
            ) || start <= i < end),
        added == clear_between(old(bits)@, start as int, end as int),
{
    let mut added: usize = 0;
    let mut i: usize = start;
    while i < end
        invariant
            start <= i <= end <= bits@.len() * 8,
            bits@.len() == old(bits)@.len(),
            forall|k: int|
                0 <= k < bits@.len() * 8 ==> #[trigger] bit_of(bits@, k) == (bit_of(old(bits)@, k)
                    || start <= k < i),
            added == clear_between(old(bits)@, start as int, i as int),
            added <= i - start,
        decreases end - i,
    {
        let low: usize = i % 8;
        let left: usize = end - i;
        let n: usize = if 8 - low <= left { 8 - low } else { left };
        let head: u64 = u64::MAX << (low as u64);
        let down: u64 = (64 - (low + n)) as u64;
        let tail: u64 = u64::MAX >> down;
        let mask: u64 = head & tail;
        let before: u64 = bits[i / 8] as u64;
        let clear: u64 = !before & mask;
        let after: u64 = before | mask;
        proof {
            let first = i - low;
            assert forall|j: int| 0 <= j < 64 implies #[trigger] bits::bit(mask, j) == (low <= j < low
                + n) by {
                crate::bits::lemma_head_mask(low as u64, j);
                crate::bits::lemma_tail_mask((low + n - 1) as u64, j);
                crate::bits::lemma_and(head, tail, j);
            }
            assert(after < 256) by (bit_vector)
                requires
                    after == before | mask,
                    mask == head & tail,
                    tail == 0xffff_ffff_ffff_ffffu64 >> down,
                    56 <= down < 64,
                    before < 256,
            ;
            assert forall|j: int| 0 <= j < 64 implies #[trigger] bits::bit(clear, j) == (low <= j < low
                + n && !bit_of(old(bits)@, first + j)) by {
                crate::bits::lemma_and(!before, mask, j);
                crate::bits::lemma_not(before, j);
                assert(bits::bit(mask, j) == (low <= j < low + n));
                if low <= j < low + n {
                    assert(bit_of(bits@, first + j) == bits::bit(before, j));
                }
            }
            lemma_count_byte(
                old(bits)@,
                start as int,
                i as int,
                n as int,
                clear,
                n as int,
            );
            crate::bits::lemma_ones_skip(clear, (low + n) as nat, 64);
            lemma_clear_bound(old(bits)@, start as int, i + n);
        }
        let ghost marked = bits@;
        added = added + clear.count_ones() as usize;
        bits[i / 8] = after as u8;
        proof {
            assert forall|k: int| 0 <= k < bits@.len() * 8 implies #[trigger] bit_of(bits@, k) == (
            bit_of(old(bits)@, k) || start <= k < i + n) by {
                if k / 8 == i as int / 8 {
                    crate::bits::lemma_or(before, mask, k % 8);
                    assert(bits::bit(mask, k % 8) == (low <= k % 8 < low + n));
                    assert(bit_of(marked, k) == bits::bit(before, k % 8));
                } else {
                    assert(bits@[k / 8] == marked[k / 8]);
                    assert(bit_of(marked, k) == (bit_of(old(bits)@, k) || start <= k < i));
                }
            }
        }
        i = i + n;
    }
    added
}

proof fn lemma_clear_bound(bits: Seq<u8>, start: int, end: int)
    requires
        start <= end,
    ensures
        clear_between(bits, start, end) <= end - start,
    decreases end - start,
{
    if start < end {
        lemma_clear_bound(bits, start, end - 1);
    }
}

/// Setting bits raises the count by those that were clear.
proof fn lemma_set_count_marked(before: Seq<u8>, after: Seq<u8>, start: int, end: int, n: nat)
    requires
        0 <= start <= end,
        n <= before.len() * 8,
        forall|i: int|
            0 <= i < before.len() * 8 ==> #[trigger] bit_of(after, i) == (bit_of(before, i) || start
                <= i < end),
    ensures
        set_count(after, n) == set_count(before, n) + clear_between(
            before,
            start,
            if n <= end {
                n as int
            } else {
                end
            },
        ),
    decreases n,
{
    if n > 0 {
        lemma_set_count_marked(before, after, start, end, (n - 1) as nat);
        assert(bit_of(after, n - 1) == (bit_of(before, n - 1) || start <= n - 1 < end));
    }
}

/// All bits are set exactly where as many are set as there are.
proof fn lemma_set_count_full(bits: Seq<u8>, n: nat)
    ensures
        set_count(bits, n) <= n,
        set_count(bits, n) == n <==> forall|i: int| 0 <= i < n ==> #[trigger] bit_of(bits, i),
    decreases n,
{
    if n > 0 {
        lemma_set_count_full(bits, (n - 1) as nat);
        if forall|i: int| 0 <= i < n ==> #[trigger] bit_of(bits, i) {
            assert(bit_of(bits, n - 1));
        }
    }
}

/// Bytes of zero have no bits.
proof fn lemma_set_count_zero(bits: Seq<u8>, n: nat)
    requires
        n <= bits.len() * 8,
        forall|k: int| 0 <= k < bits.len() ==> #[trigger] bits[k] == 0,
    ensures
        set_count(bits, n) == 0,
        forall|i: int| 0 <= i < n ==> !#[trigger] bit_of(bits, i),
    decreases n,
{
    if n > 0 {
        lemma_set_count_zero(bits, (n - 1) as nat);
        assert(bits[(n - 1) / 8] == 0);
        crate::bits::lemma_zero((n - 1) % 8);
    }
}

/// One handshake message being reassembled.
///
/// Fragments are copied straight into `raw` at their offset, so a message's storage is sized by its
/// advertised length rather than by how many fragments it arrives in.
pub struct PendingMessage {
    handshake_header: HandshakeHeader,
    epoch: u16,
    /// The rebuilt message: an unfragmented handshake header followed by the body.
    raw: Vec<u8>,
    /// One bit per body byte received so far. Left empty when the first fragment carried the whole
    /// message.
    received: Vec<u8>,
    received_len: usize,
    /// What this message counts against the memory that may be taken.
    size: usize,
}

impl PendingMessage {
    /// The parts fit together, whether or not anything has arrived.
    spec fn shaped(&self) -> bool {
        let length = self.handshake_header.length;
        &&& length <= FRAGMENT_BUFFER_MAX_MESSAGE_LENGTH
        &&& self.handshake_header.fragment_offset == 0
        &&& self.handshake_header.fragment_length == length
        &&& self.raw@.len() == 12 + length
        &&& self.raw@.subrange(0, 12) == self.handshake_header.bytes()
        &&& self.received@.len() == 0 || self.received@.len() == (length + 7) / 8
    }

    /// The message and what has arrived of it are accounted for.
    spec fn wf(&self) -> bool {
        let length = self.handshake_header.length as nat;
        &&& self.shaped()
        &&& self.received@.len() == 0 ==> self.received_len == length
        &&& self.received@.len() > 0 ==> self.received_len == set_count(self.received@, length)
    }

    spec fn view(&self) -> MessageView {
        let length = self.handshake_header.length as nat;
        MessageView {
            handshake_type: self.handshake_header.handshake_type,
            message_sequence: self.handshake_header.message_sequence,
            epoch: self.epoch,
            body: self.raw@.subrange(12, 12 + length as int),
            got: Seq::new(
                length,
                |i: int| self.received@.len() == 0 || bit_of(self.received@, i),
            ),
            charge: self.size as int,
        }
    }

    /// What a message started by `first` counts against the memory that may be taken.
    pub fn size_for(first: &HandshakeHeader) -> (size: usize)
        requires
            first.fits(),
        ensures
            size == size_for(*first),
    {
        let length: usize = first.length as usize;
        let received: usize = if PendingMessage::is_unfragmented(first) {
            0
        } else {
            (length + 7) / 8
        };
        HANDSHAKE_HEADER_LENGTH + length + received + PENDING_MESSAGE_OVERHEAD
    }

    pub fn is_unfragmented(first: &HandshakeHeader) -> (unfragmented: bool)
        ensures
            unfragmented == is_unfragmented(*first),
    {
        first.fragment_offset == 0 && first.fragment_length == first.length
    }

    /// A message begun by the fragment `first`, with the fragment's bytes in it.
    fn new(epoch: u16, first: &HandshakeHeader, payload: &[u8]) -> (message: Self)
        requires
            first.fits(),
            first.length <= FRAGMENT_BUFFER_MAX_MESSAGE_LENGTH,
            payload@.len() == first.fragment_length,
            first.fragment_offset + first.fragment_length <= first.length,
        ensures
            message.wf(),
            message.view() == MessageView::begun(epoch, *first).write(
                first.fragment_offset as int,
                payload@,
            ),
    {
        let length: usize = first.length as usize;
        let handshake_header = HandshakeHeader {
            fragment_offset: 0,
            fragment_length: first.length,
            ..*first
        };
        let mut raw: Vec<u8> = Vec::new();
        handshake_header.marshal(&mut raw);
        let ghost start = raw@;
        assert(start =~= handshake_header.bytes());
        let mut i: usize = 0;
        while i < length
            invariant
                i <= length,
                start.len() == 12,
                raw@ == start + Seq::new(i as nat, |k: int| 0u8),
            decreases length - i,
        {
            raw.push(0);
            i = i + 1;
            assert(raw@ =~= start + Seq::new(i as nat, |k: int| 0u8));
        }
        let unfragmented = PendingMessage::is_unfragmented(first);
        let received: Vec<u8> = if unfragmented {
            Vec::new()
        } else {
            vec![0u8; (length + 7) / 8]
        };
        let mut message = PendingMessage {
            handshake_header,
            epoch,
            raw,
            received,
            received_len: 0,
            size: PendingMessage::size_for(first),
        };
        proof {
            assert(message.raw@.subrange(0, 12) =~= handshake_header.bytes());
            assert(message.view().body =~= MessageView::begun(epoch, *first).body);
        }
        if unfragmented {
            // The first fragment carries the whole message.
            message.copy_in(0, payload);
            message.received_len = payload.len();
            proof {
                let begun = MessageView::begun(epoch, *first);
                if length > 0 {
                    assert(!begun.got[0]);
                }
                assert(message.view().body =~= begun.write(0, payload@).body);
                assert(message.view().got =~= begun.write(0, payload@).got);
                assert(message.view() =~= begun.write(0, payload@));
            }
        } else {
            proof {
                lemma_set_count_zero(message.received@, length as nat);
                assert(message.view().got =~= MessageView::begun(epoch, *first).got);
                assert(message.view() =~= MessageView::begun(epoch, *first));
            }
            message.write(first.fragment_offset as usize, payload);
        }
        message
    }

    fn is_complete(&self) -> (complete: bool)
        requires
            self.wf(),
        ensures
            complete == self.view().complete(),
    {
        proof {
            let length = self.handshake_header.length as nat;
            lemma_set_count_full(self.received@, length);
            let view = self.view();
            if self.received_len == length {
                assert forall|i: int| 0 <= i < length implies #[trigger] view.got[i] by {
                    if self.received@.len() > 0 {
                        assert(bit_of(self.received@, i));
                    }
                }
            } else {
                assert(self.received@.len() > 0);
                let i = choose|i: int| 0 <= i < length && !bit_of(self.received@, i);
                assert(!view.got[i]);
            }
        }
        self.received_len == self.handshake_header.length as usize
    }

    /// Copies `payload` into the body at `offset`.
    fn copy_in(&mut self, offset: usize, payload: &[u8])
        requires
            old(self).shaped(),
            offset + payload@.len() <= old(self).handshake_header.length,
        ensures
            final(self).shaped(),
            *final(self) == (PendingMessage { raw: final(self).raw, ..*old(self) }),
            final(self).raw@.len() == old(self).raw@.len(),
            forall|i: int|
                0 <= i < old(self).raw@.len() ==> #[trigger] final(self).raw@[i] == if 12 + offset
                    <= i < 12 + offset + payload@.len() {
                    payload@[i - 12 - offset]
                } else {
                    old(self).raw@[i]
                },
    {
        let start: usize = HANDSHAKE_HEADER_LENGTH + offset;
        let mut k: usize = 0;
        while k < payload.len()
            invariant
                k <= payload@.len(),
                start == 12 + offset,
                start + payload@.len() <= self.raw@.len(),
                self.raw@.len() == old(self).raw@.len(),
                self.raw@.len() <= 12 + FRAGMENT_BUFFER_MAX_MESSAGE_LENGTH,
                *self == (PendingMessage { raw: self.raw, ..*old(self) }),
                forall|i: int|
                    0 <= i < self.raw@.len() ==> #[trigger] self.raw@[i] == if start <= i < start
                        + k {
                        payload@[i - start]
                    } else {
                        old(self).raw@[i]
                    },
            decreases payload@.len() - k,
        {
            self.raw[start + k] = payload[k];
            k = k + 1;
        }
        assert(self.raw@.subrange(0, 12) =~= old(self).raw@.subrange(0, 12));
    }

    fn write(&mut self, offset: usize, payload: &[u8])
        requires
            old(self).wf(),
            offset + payload@.len() <= old(self).handshake_header.length,
        ensures
            final(self).wf(),
            final(self).handshake_header == old(self).handshake_header,
            final(self).view() == old(self).view().write(offset as int, payload@),
    {
        if payload.len() == 0 || self.is_complete() {
            return;
        }
        let ghost before = self.view();
        self.copy_in(offset, payload);
        let ghost bits = self.received@;
        let ghost length = self.handshake_header.length as nat;
        let added: usize = mark_received(&mut self.received, offset, offset + payload.len());
        proof {
            lemma_set_count_marked(
                bits,
                self.received@,
                offset as int,
                offset + payload@.len(),
                length,
            );
            lemma_set_count_full(self.received@, length);
        }
        self.received_len = self.received_len + added;
        proof {
            assert(self.view().body =~= before.write(offset as int, payload@).body);
            assert(self.view().got =~= before.write(offset as int, payload@).got);
            assert(self.view() =~= before.write(offset as int, payload@));
        }
    }
}

/// Splits the handshake fragment at the start of `buf` into its header, its payload, and the bytes
/// after it.
fn split_fragment(buf: &[u8]) -> (out: Result<(HandshakeHeader, &[u8], &[u8]), Error>)
    ensures
        match out {
            Ok((header, payload, rest)) => split(buf@) == Ok::<(Fragment, Seq<u8>), Error>(
                (Fragment { header, payload: payload@ }, rest@),
            ) && header.fits() && payload@.len() == header.fragment_length
                && header.fragment_offset + header.fragment_length <= header.length && rest@.len()
                < buf@.len(),
            Err(e) => split(buf@) == Err::<(Fragment, Seq<u8>), Error>(e),
        },
{
    let header = match HandshakeHeader::unmarshal(buf) {
        Ok(header) => header,
        Err(e) => return Err(e),
    };
    let end: usize = HANDSHAKE_HEADER_LENGTH + header.fragment_length as usize;
    let message_end: usize = header.fragment_offset as usize + header.fragment_length as usize;
    if end > buf.len() || message_end > header.length as usize {
        return Err(Error::ErrLengthMismatch);
    }
    Ok((header, &buf[HANDSHAKE_HEADER_LENGTH..end], &buf[end..buf.len()]))
}

/// The model of a [`FragmentBuffer`].
#[verifier::ext_equal]
pub struct BufferView {
    /// The number of the message that is popped next.
    pub current: u16,
    /// The messages being reassembled.
    pub messages: Map<u16, MessageView>,
}

impl BufferView {
    /// What one message counts.
    pub open spec fn charge(self, seq: u16) -> int {
        if self.messages.contains_key(seq) {
            self.messages[seq].charge
        } else {
            0
        }
    }

    /// What the first `n` messages from the next one on count together.
    pub open spec fn charges(self, n: nat) -> int
        decreases n,
    {
        if n == 0 {
            0
        } else {
            self.charges((n - 1) as nat) + self.charge(self.current.wrapping_add((n - 1) as u16))
        }
    }

    /// What all buffered messages count.
    pub open spec fn size(self) -> int {
        self.charges(16)
    }

    /// Whether a message may be buffered: it is the next one or one of the fifteen after it.
    pub open spec fn in_window(self, seq: u16) -> bool {
        seq.wrapping_sub(self.current) < FRAGMENT_BUFFER_MAX_MESSAGES_AHEAD
    }

    /// The buffer after one fragment, and whether it was refused. Fragments of messages outside of
    /// the window are dropped. A fragment that disagrees with the rest of its message is refused,
    /// and so is one that begins a message too long for itself or for what is left.
    pub open spec fn insert(self, epoch: u16, fragment: Fragment) -> (
        BufferView,
        Result<(), Error>,
    ) {
        let header = fragment.header;
        let seq = header.message_sequence;
        let new_size = self.size() + size_for(header);
        if !self.in_window(seq) {
            (self, Ok(()))
        } else if self.messages.contains_key(seq) {
            let message = self.messages[seq];
            if message.epoch != epoch || message.handshake_type != header.handshake_type
                || message.body.len() != header.length {
                (self, Err(Error::ErrLengthMismatch))
            } else {
                (self.put(message.write(header.fragment_offset as int, fragment.payload)), Ok(()))
            }
        } else if header.length > FRAGMENT_BUFFER_MAX_MESSAGE_LENGTH {
            (
                self,
                Err(
                    Error::ErrFragmentBufferOverflow {
                        new_size: header.length as usize,
                        max_size: FRAGMENT_BUFFER_MAX_MESSAGE_LENGTH,
                    },
                ),
            )
        } else if new_size >= FRAGMENT_BUFFER_MAX_SIZE {
            (
                self,
                Err(
                    Error::ErrFragmentBufferOverflow {
                        new_size: new_size as usize,
                        max_size: FRAGMENT_BUFFER_MAX_SIZE,
                    },
                ),
            )
        } else {
            (
                self.put(
                    MessageView::begun(epoch, header).write(
                        header.fragment_offset as int,
                        fragment.payload,
                    ),
                ),
                Ok(()),
            )
        }
    }

    /// The buffer with a message in it.
    pub open spec fn put(self, message: MessageView) -> BufferView {
        BufferView { messages: self.messages.insert(message.message_sequence, message), ..self }
    }

    /// The buffer after these fragments, up to the first one that is refused.
    pub open spec fn insert_all(self, epoch: u16, fragments: Seq<Fragment>) -> (
        BufferView,
        Result<(), Error>,
    )
        decreases fragments.len(),
    {
        if fragments.len() == 0 {
            (self, Ok(()))
        } else {
            match self.insert(epoch, fragments[0]) {
                (after, Ok(())) => after.insert_all(epoch, fragments.drop_first()),
                (after, Err(e)) => (after, Err(e)),
            }
        }
    }

    /// The buffer after a record, and what is said of it: whether it held handshake data, or why
    /// the connection cannot go on. A malformed record is refused as a whole.
    pub open spec fn push(self, record: Seq<u8>) -> (BufferView, Result<bool, Error>) {
        let header = RecordLayerHeader::read(record);
        if record.len() < 13 {
            (self, Err(Error::ErrBufferTooSmall))
        } else if header.content_type != ContentType::Handshake {
            (self, Ok(false))
        } else {
            match fragments(record.subrange(13, record.len() as int)) {
                Err(e) => (self, Err(e)),
                Ok(fragments) => match self.insert_all(header.epoch, fragments) {
                    (after, Ok(())) => (after, Ok(true)),
                    (after, Err(e)) => (after, Err(e)),
                },
            }
        }
    }

    /// The next message, where it is complete.
    pub open spec fn ready(self) -> bool {
        self.messages.contains_key(self.current) && self.messages[self.current].complete()
    }

    /// The buffer after the next message was taken out.
    pub open spec fn popped(self) -> BufferView {
        BufferView {
            current: self.current.wrapping_add(1),
            messages: self.messages.remove(self.current),
        }
    }

    /// What holds of every buffer: its messages lie in the window, each under its own number, none
    /// is too long, and together they stay under the limit.
    pub open spec fn valid(self) -> bool {
        &&& forall|seq: u16| #[trigger]
            self.messages.contains_key(seq) ==> {
                &&& self.in_window(seq)
                &&& self.messages[seq].message_sequence == seq
                &&& self.messages[seq].body.len() <= FRAGMENT_BUFFER_MAX_MESSAGE_LENGTH
                &&& self.messages[seq].got.len() == self.messages[seq].body.len()
                &&& self.messages[seq].charge >= 0
            }
        &&& 0 <= self.size() < FRAGMENT_BUFFER_MAX_SIZE
    }
}

/// Buffers the handshake messages that are being reassembled.
pub struct FragmentBuffer {
    /// The messages being reassembled, by number.
    cache: HashMap<u16, PendingMessage>,
    current_message_sequence_number: u16,
    /// Sum of the buffered messages' sizes, kept up to date on insert and removal.
    size: usize,
}

impl View for FragmentBuffer {
    type V = BufferView;

    closed spec fn view(&self) -> BufferView {
        BufferView {
            current: self.current_message_sequence_number,
            messages: self.cache@.map_values(|message: PendingMessage| message.view()),
        }
    }
}

/// Putting a message in raises what is counted by the difference.
proof fn lemma_charges_put(view: BufferView, message: MessageView, n: nat)
    requires
        n <= 16,
    ensures
        view.put(message).charges(n) == view.charges(n) + if message.message_sequence.wrapping_sub(
            view.current,
        ) < n {
            message.charge - view.charge(message.message_sequence)
        } else {
            0
        },
    decreases n,
{
    if n > 0 {
        lemma_charges_put(view, message, (n - 1) as nat);
    }
}

/// Taking the next message out lowers what is counted by what it counted.
proof fn lemma_charges_popped(view: BufferView, n: nat)
    requires
        n <= 16,
        forall|seq: u16| #[trigger] view.messages.contains_key(seq) ==> view.in_window(seq),
    ensures
        view.popped().charges(n) == view.charges(n) + (if n < 16 {
            view.charge(view.current.wrapping_add(n as u16))
        } else {
            0
        }) - view.charge(view.current),
    decreases n,
{
    if n > 0 {
        lemma_charges_popped(view, (n - 1) as nat);
        let seq = view.current.wrapping_add(n as u16);
        assert(view.popped().current.wrapping_add((n - 1) as u16) == seq);
        if n == 16 {
            assert(!view.messages.contains_key(seq));
        }
    } else {
        assert(view.current.wrapping_add(0u16) == view.current);
    }
}

/// What the messages count together is no less than what one of them counts.
proof fn lemma_charge_part(view: BufferView, seq: u16, n: nat)
    requires
        n <= 16,
        forall|s: u16| #[trigger] view.messages.contains_key(s) ==> view.messages[s].charge >= 0,
    ensures
        view.charges(n) >= 0,
        seq.wrapping_sub(view.current) < n ==> view.charges(n) >= view.charge(seq),
    decreases n,
{
    if n > 0 {
        lemma_charge_part(view, seq, (n - 1) as nat);
        let last = view.current.wrapping_add((n - 1) as u16);
        assert(view.charge(last) >= 0);
    }
}

/// Whatever fragment arrives, a valid buffer stays valid.
pub proof fn law_insert_keeps_valid(view: BufferView, epoch: u16, fragment: Fragment)
    requires
        view.valid(),
        fragment.header.fits(),
        fragment.header.fragment_offset + fragment.payload.len() <= fragment.header.length,
    ensures
        view.insert(epoch, fragment).0.valid(),
        view.insert(epoch, fragment).0.current == view.current,
{
    let header = fragment.header;
    let seq = header.message_sequence;
    let (after, result) = view.insert(epoch, fragment);
    if view.in_window(seq) && result is Ok {
        let message = after.messages[seq];
        lemma_charges_put(view, message, 16);
        assert(after == view.put(message));
    }
}

impl FragmentBuffer {
    /// The parts of the buffer fit together.
    pub closed spec fn wf(&self) -> bool {
        &&& self@.valid()
        &&& self.size == self@.size()
        &&& forall|seq: u16| #[trigger] self.cache@.contains_key(seq) ==> self.cache@[seq].wf()
    }

    /// There are only so many messages.
    pub proof fn lemma_messages_finite(&self)
        ensures
            self@.messages.dom().finite(),
    {
        assert(self@.messages.dom() =~= self.cache@.dom());
    }

    /// An empty buffer.
    pub fn new() -> (buffer: Self)
        ensures
            buffer.wf(),
            buffer@ == (BufferView { current: 0, messages: Map::empty() }),
    {
        let buffer = FragmentBuffer {
            cache: HashMap::new(),
            current_message_sequence_number: 0,
            size: 0,
        };
        proof {
            assert(buffer@.messages =~= Map::empty());
            lemma_charges_none(buffer@, 16);
        }
        buffer
    }

    /// What the buffered messages count against the memory that may be taken.
    pub fn size(&self) -> (size: usize)
        requires
            self.wf(),
        ensures
            size == self@.size(),
    {
        self.size
    }

    /// Attempts to push a DTLS packet to the buffer. When it returns true the packet held handshake
    /// data and shouldn't be handled otherwise. An error is fatal: the connection should be
    /// stopped.
    ///
    /// Fragments of messages that were already popped (retransmissions) or that lie beyond
    /// [`FRAGMENT_BUFFER_MAX_MESSAGES_AHEAD`] are dropped, but still reported as handshake data.
    pub fn push(&mut self, buf: &[u8]) -> (result: Result<bool, Error>)
        requires
            old(self).wf(),
        ensures
            final(self).wf(),
            (final(self)@, result) == old(self)@.push(buf@),
    {
        let record_layer_header = match RecordLayerHeader::unmarshal(buf) {
            Ok(header) => header,
            Err(e) => return Err(e),
        };
        // Fragment isn't a handshake, we don't need to handle it
        if record_layer_header.content_type != ContentType::Handshake {
            return Ok(false);
        }
        // Check the framing of every fragment before buffering any, so a malformed record is
        // rejected as a whole.
        let body = &buf[RECORD_LAYER_HEADER_SIZE..buf.len()];
        let ghost before = self@;
        let epoch: u16 = record_layer_header.epoch;
        let mut rest = body;
        while rest.len() > 0
            invariant
                *self == *old(self),
                self.wf(),
                buf@.len() >= 13,
                body@ == buf@.subrange(13, buf@.len() as int),
                RecordLayerHeader::read(buf@).content_type == ContentType::Handshake,
                epoch == RecordLayerHeader::read(buf@).epoch,
                before == old(self)@,
                fragments(rest@) is Err ==> fragments(rest@) == fragments(body@),
                fragments(rest@) is Ok ==> fragments(body@) is Ok,
            decreases rest@.len(),
        {
            match split_fragment(rest) {
                Ok((_, _, next)) => {
                    rest = next;
                },
                Err(e) => return Err(e),
            }
        }
        let mut rest = body;
        while rest.len() > 0
            invariant
                self.wf(),
                buf@.len() >= 13,
                body@ == buf@.subrange(13, buf@.len() as int),
                RecordLayerHeader::read(buf@).content_type == ContentType::Handshake,
                epoch == RecordLayerHeader::read(buf@).epoch,
                before == old(self)@,
                fragments(rest@) is Ok,
                fragments(body@) is Ok,
                self@.insert_all(epoch, fragments(rest@)->Ok_0) == before.insert_all(
                    epoch,
                    fragments(body@)->Ok_0,
                ),
            decreases rest@.len(),
        {
            match split_fragment(rest) {
                Ok((header, payload, next)) => {
                    proof {
                        let all = fragments(rest@)->Ok_0;
                        assert(all.drop_first() =~= fragments(next@)->Ok_0);
                    }
                    match self.insert(epoch, &header, payload) {
                        Ok(()) => {},
                        Err(e) => return Err(e),
                    }
                    rest = next;
                },
                Err(e) => return Err(e),
            }
        }
        Ok(true)
    }

    fn insert(&mut self, epoch: u16, header: &HandshakeHeader, payload: &[u8]) -> (result: Result<
        (),
        Error,
    >)
        requires
            old(self).wf(),
            header.fits(),
            payload@.len() == header.fragment_length,
            header.fragment_offset + header.fragment_length <= header.length,
        ensures
            final(self).wf(),
            (final(self)@, result) == old(self)@.insert(
                epoch,
                (Fragment { header: *header, payload: payload@ }),
            ),
    {
        let ghost before = self@;
        let ghost fragment = Fragment { header: *header, payload: payload@ };
        proof {
            law_insert_keeps_valid(before, epoch, fragment);
        }
        let seq: u16 = header.message_sequence;
        let ahead: u16 = seq.wrapping_sub(self.current_message_sequence_number);
        if ahead >= FRAGMENT_BUFFER_MAX_MESSAGES_AHEAD {
            return Ok(());
        }
        if let Some(message) = self.cache.get(&seq) {
            assert(before.messages[seq] == message.view());
            if message.epoch != epoch || message.handshake_header.handshake_type
                != header.handshake_type || message.handshake_header.length != header.length {
                // A fragment that disagrees with the rest of its message.
                return Err(Error::ErrLengthMismatch);
            }
        } else {
            if header.length as usize > FRAGMENT_BUFFER_MAX_MESSAGE_LENGTH {
                return Err(
                    Error::ErrFragmentBufferOverflow {
                        new_size: header.length as usize,
                        max_size: FRAGMENT_BUFFER_MAX_MESSAGE_LENGTH,
                    },
                );
            }
            let new_size: usize = self.size + PendingMessage::size_for(header);
            if new_size >= FRAGMENT_BUFFER_MAX_SIZE {
                return Err(
                    Error::ErrFragmentBufferOverflow {
                        new_size,
                        max_size: FRAGMENT_BUFFER_MAX_SIZE,
                    },
                );
            }
            let message = PendingMessage::new(epoch, header, payload);
            let ghost view = message.view();
            proof {
                lemma_charges_put(before, view, 16);
            }
            self.size = new_size;
            self.cache.insert(seq, message);
            proof {
                assert(self@.messages =~= before.messages.insert(seq, view));
                assert(self@ =~= before.put(view));
            }
            return Ok(());
        }
        if let Some(message) = self.cache.remove(&seq) {
            let mut message = message;
            message.write(header.fragment_offset as usize, payload);
            let ghost view = message.view();
            proof {
                lemma_charges_put(before, view, 16);
            }
            self.cache.insert(seq, message);
            proof {
                assert(self@.messages =~= before.messages.insert(seq, view));
                assert(self@ =~= before.put(view));
            }
        }
        Ok(())
    }

    /// Takes out the next message, if it is complete, and the epoch that it came in.
    pub fn pop(&mut self) -> (result: Result<(Vec<u8>, u16), Error>)
        requires
            old(self).wf(),
        ensures
            final(self).wf(),
            match result {
                Ok((raw, epoch)) => {
                    let message = old(self)@.messages[old(self)@.current];
                    &&& old(self)@.ready()
                    &&& raw@ == message.header().bytes() + message.body
                    &&& epoch == message.epoch
                    &&& final(self)@ == old(self)@.popped()
                },
                Err(e) => {
                    &&& !old(self)@.ready()
                    &&& e == Error::ErrEmptyFragment
                    &&& final(self)@ == old(self)@
                },
            },
    {
        let ghost before = self@;
        let seq_num: u16 = self.current_message_sequence_number;
        let ready = match self.cache.get(&seq_num) {
            Some(message) => message.is_complete(),
            None => false,
        };
        if !ready {
            return Err(Error::ErrEmptyFragment);
        }
        match self.cache.remove(&seq_num) {
            Some(message) => {
                proof {
                    let view = before.messages[seq_num];
                    assert(view == message.view());
                    assert(message.raw@ =~= message.raw@.subrange(0, 12) + view.body);
                    lemma_charge_part(before, seq_num, 16);
                    lemma_charges_popped(before, 16);
                    assert(before.current.wrapping_add(0u16) == seq_num);
                }
                self.size = self.size - message.size;
                self.current_message_sequence_number = seq_num.wrapping_add(1);
                proof {
                    assert(self@.messages =~= before.messages.remove(seq_num));
                    assert(self@ =~= before.popped());
                    lemma_charge_part(self@, seq_num, 16);
                }
                Ok((message.raw, message.epoch))
            },
            None => Err(Error::ErrEmptyFragment),
        }
    }

    /// Drops every buffered message, for a handshake that can no longer complete.
    pub fn release(&mut self)
        requires
            old(self).wf(),
        ensures
            final(self).wf(),
            final(self)@ == (BufferView { messages: Map::empty(), ..old(self)@ }),
    {
        self.cache = HashMap::new();
        self.size = 0;
        proof {
            assert(self@.messages =~= Map::empty());
            lemma_charges_none(self@, 16);
        }
    }
}

/// No messages count nothing.
proof fn lemma_charges_none(view: BufferView, n: nat)
    requires
        view.messages == Map::<u16, MessageView>::empty(),
    ensures
        view.charges(n) == 0,
    decreases n,
{
    if n > 0 {
        lemma_charges_none(view, (n - 1) as nat);
    }
}

/// Whether what has arrived of a message is part of `message`.
pub open spec fn agrees(view: MessageView, message: Seq<u8>) -> bool {
    &&& view.body.len() == message.len()
    &&& view.got.len() == message.len()
    &&& forall|i: int| 0 <= i < message.len() && view.got[i] ==> #[trigger] view.body[i] == message[i]
}

/// A message after these parts of `message`, each given by where it begins and ends, arrived one
/// after the other.
pub open spec fn write_parts(
    view: MessageView,
    message: Seq<u8>,
    parts: Seq<(int, int)>,
) -> MessageView
    decreases parts.len(),
{
    if parts.len() == 0 {
        view
    } else {
        let before = write_parts(view, message, parts.drop_last());
        let (start, end) = parts.last();
        before.write(start, message.subrange(start, end))
    }
}

/// Whether one of the parts holds byte `i`.
pub open spec fn covered(parts: Seq<(int, int)>, i: int) -> bool {
    exists|k: int| 0 <= k < parts.len() && (#[trigger] parts[k]).0 <= i < parts[k].1
}

/// However a message is cut into parts, and in whatever order they arrive, overlapping or
/// duplicated, it is rebuilt as it was: what has arrived is part of it, it is complete exactly once
/// every byte has arrived, and then it is the message.
pub proof fn law_reassembles(
    epoch: u16,
    first: HandshakeHeader,
    message: Seq<u8>,
    parts: Seq<(int, int)>,
)
    requires
        first.length == message.len(),
        forall|k: int|
            0 <= k < parts.len() ==> 0 <= (#[trigger] parts[k]).0 <= parts[k].1 <= message.len(),
    ensures
        ({
            let view = write_parts(MessageView::begun(epoch, first), message, parts);
            &&& agrees(view, message)
            &&& view.complete() <==> forall|i: int| 0 <= i < message.len() ==> covered(parts, i)
            &&& view.complete() ==> view.body == message
        }),
{
    let begun = MessageView::begun(epoch, first);
    let view = write_parts(begun, message, parts);
    lemma_parts(begun, message, parts);
    if view.complete() {
        assert(view.body =~= message) by {
            assert forall|i: int| 0 <= i < message.len() implies view.body[i] == message[i] by {
                assert(view.got[i]);
            }
        }
        assert forall|i: int| 0 <= i < message.len() implies covered(parts, i) by {
            assert(view.got[i]);
        }
    }
    if forall|i: int| 0 <= i < message.len() ==> covered(parts, i) {
        assert forall|i: int| 0 <= i < view.got.len() implies #[trigger] view.got[i] by {
            assert(covered(parts, i));
        }
    }
}

proof fn lemma_parts(begun: MessageView, message: Seq<u8>, parts: Seq<(int, int)>)
    requires
        agrees(begun, message),
        forall|i: int| 0 <= i < begun.got.len() ==> !#[trigger] begun.got[i],
        forall|k: int|
            0 <= k < parts.len() ==> 0 <= (#[trigger] parts[k]).0 <= parts[k].1 <= message.len(),
    ensures
        ({
            let view = write_parts(begun, message, parts);
            &&& agrees(view, message)
            &&& forall|i: int|
                0 <= i < message.len() ==> #[trigger] view.got[i] ==> covered(parts, i)
            &&& view.complete() || forall|i: int|
                0 <= i < message.len() && covered(parts, i) ==> #[trigger] view.got[i]
        }),
    decreases parts.len(),
{
    if parts.len() > 0 {
        let shorter = parts.drop_last();
        let last = parts.len() - 1;
        assert forall|k: int| 0 <= k < shorter.len() implies 0 <= (#[trigger] shorter[k]).0
            <= shorter[k].1 <= message.len() by {
            assert(0 <= parts[k].0 <= parts[k].1 <= message.len());
        }
        lemma_parts(begun, message, shorter);
        let before = write_parts(begun, message, shorter);
        let view = write_parts(begun, message, parts);
        let (start, end) = parts[last];
        assert forall|i: int| 0 <= i < message.len() implies covered(parts, i) == (covered(
            shorter,
            i,
        ) || start <= i < end) by {
            if covered(parts, i) {
                let k = choose|k: int|
                    0 <= k < parts.len() && (#[trigger] parts[k]).0 <= i < parts[k].1;
                if k < last {
                    assert(shorter[k].0 <= i < shorter[k].1);
                }
            }
            if covered(shorter, i) {
                let k = choose|k: int|
                    0 <= k < shorter.len() && (#[trigger] shorter[k]).0 <= i < shorter[k].1;
                assert(parts[k].0 <= i < parts[k].1);
            }
            if start <= i < end {
                assert(parts[last].0 <= i < parts[last].1);
            }
        }
        if !before.complete() && start < end {
            assert forall|i: int| 0 <= i < message.len() && view.got[i] implies #[trigger] view.body[i]
                == message[i] by {
                if !(start <= i < end) {
                    assert(before.got[i]);
                }
            }
        }
    }
}

/// A buffer once these records were pushed, one after the other.
pub open spec fn after_pushes(view: BufferView, records: Seq<Seq<u8>>) -> BufferView
    decreases records.len(),
{
    if records.len() == 0 {
        view
    } else {
        after_pushes(view, records.drop_last()).push(records.last()).0
    }
}

/// Whether every one of these records is taken in as handshake data.
pub open spec fn all_taken_in(view: BufferView, records: Seq<Seq<u8>>) -> bool
    decreases records.len(),
{
    records.len() == 0 || {
        &&& all_taken_in(view, records.drop_last())
        &&& after_pushes(view, records.drop_last()).push(records.last()).1 == Ok::<bool, Error>(
            true,
        )
    }
}

/// The fragments that a record holds.
pub open spec fn fragments_of(record: Seq<u8>) -> Result<Seq<Fragment>, Error> {
    fragments(record.subrange(13, record.len() as int))
}

/// Whether a fragment is a part of a message with this header.
pub open spec fn is_part(fragment: Fragment, whole: HandshakeHeader, message: Seq<u8>) -> bool {
    let start = fragment.header.fragment_offset as int;
    let end = start + fragment.header.fragment_length;
    &&& fragment.header.handshake_type == whole.handshake_type
    &&& fragment.header.length == whole.length
    &&& fragment.header.message_sequence == whole.message_sequence
    &&& end <= message.len()
    &&& fragment.payload == message.subrange(start, end)
}

/// Whether a record of this epoch holds nothing but parts of a message.
pub open spec fn carries(
    record: Seq<u8>,
    epoch: u16,
    whole: HandshakeHeader,
    message: Seq<u8>,
) -> bool {
    &&& record.len() >= 13
    &&& RecordLayerHeader::read(record).content_type == ContentType::Handshake
    &&& RecordLayerHeader::read(record).epoch == epoch
    &&& fragments_of(record) matches Ok(held)
    &&& forall|i: int| 0 <= i < held.len() ==> is_part(#[trigger] held[i], whole, message)
}

/// Where fragments begin and end.
pub open spec fn spans(fragments: Seq<Fragment>) -> Seq<(int, int)> {
    Seq::new(
        fragments.len(),
        |i: int|
            (
                fragments[i].header.fragment_offset as int,
                fragments[i].header.fragment_offset + fragments[i].header.fragment_length,
            ),
    )
}

/// Where the fragments that these records hold begin and end.
pub open spec fn arrived(records: Seq<Seq<u8>>) -> Seq<(int, int)>
    decreases records.len(),
{
    if records.len() == 0 {
        Seq::empty()
    } else {
        arrived(records.drop_last()) + spans(fragments_of(records.last())->Ok_0)
    }
}

/// Whether a buffer holds these parts of a message, and nothing else.
spec fn holds_parts(
    view: BufferView,
    epoch: u16,
    whole: HandshakeHeader,
    message: Seq<u8>,
    parts: Seq<(int, int)>,
) -> bool {
    let seq = whole.message_sequence;
    let rebuilt = write_parts(MessageView::begun(epoch, whole), message, parts);
    &&& view.current == seq
    &&& if parts.len() == 0 {
        view.messages == Map::<u16, MessageView>::empty()
    } else {
        &&& view.messages.contains_key(seq)
        &&& view.messages == Map::<u16, MessageView>::empty().insert(seq, view.messages[seq])
        &&& view.messages[seq] == (MessageView { charge: view.messages[seq].charge, ..rebuilt })
    }
}

proof fn lemma_written_shape(begun: MessageView, message: Seq<u8>, parts: Seq<(int, int)>)
    ensures
        ({
            let view = write_parts(begun, message, parts);
            &&& view.body.len() == begun.body.len()
            &&& view.got.len() == begun.got.len()
            &&& view.epoch == begun.epoch
            &&& view.handshake_type == begun.handshake_type
            &&& view.message_sequence == begun.message_sequence
        }),
    decreases parts.len(),
{
    if parts.len() > 0 {
        lemma_written_shape(begun, message, parts.drop_last());
    }
}

proof fn lemma_insert_part(
    view: BufferView,
    epoch: u16,
    whole: HandshakeHeader,
    message: Seq<u8>,
    parts: Seq<(int, int)>,
    fragment: Fragment,
)
    requires
        holds_parts(view, epoch, whole, message, parts),
        whole.length == message.len() <= FRAGMENT_BUFFER_MAX_MESSAGE_LENGTH,
        is_part(fragment, whole, message),
    ensures
        view.insert(epoch, fragment).1 is Ok,
        holds_parts(
            view.insert(epoch, fragment).0,
            epoch,
            whole,
            message,
            parts.push(
                (
                    fragment.header.fragment_offset as int,
                    fragment.header.fragment_offset + fragment.header.fragment_length,
                ),
            ),
        ),
{
    let header = fragment.header;
    let seq = whole.message_sequence;
    let start = header.fragment_offset as int;
    let end = start + header.fragment_length;
    let more = parts.push((start, end));
    let begun = MessageView::begun(epoch, whole);
    let (after, result) = view.insert(epoch, fragment);
    assert(more.drop_last() =~= parts);
    lemma_written_shape(begun, message, parts);
    assert(view.in_window(seq));
    if parts.len() == 0 {
        lemma_charges_none(view, 16);
        assert(MessageView::begun(epoch, header) =~= (MessageView {
            charge: size_for(header),
            ..begun
        }));
        let written = MessageView::begun(epoch, header).write(start, fragment.payload);
        assert(written =~= (MessageView {
            charge: size_for(header),
            ..begun.write(start, fragment.payload)
        }));
        assert(after.messages =~= Map::<u16, MessageView>::empty().insert(seq, written));
    } else {
        let held = view.messages[seq];
        let rebuilt = write_parts(begun, message, parts);
        let written = held.write(start, fragment.payload);
        assert(held.complete() == rebuilt.complete());
        assert(written =~= (MessageView {
            charge: held.charge,
            ..rebuilt.write(start, fragment.payload)
        }));
        assert(after.messages =~= Map::<u16, MessageView>::empty().insert(seq, written));
    }
}

proof fn lemma_insert_parts(
    view: BufferView,
    epoch: u16,
    whole: HandshakeHeader,
    message: Seq<u8>,
    parts: Seq<(int, int)>,
    held: Seq<Fragment>,
)
    requires
        holds_parts(view, epoch, whole, message, parts),
        whole.length == message.len() <= FRAGMENT_BUFFER_MAX_MESSAGE_LENGTH,
        forall|i: int| 0 <= i < held.len() ==> is_part(#[trigger] held[i], whole, message),
    ensures
        view.insert_all(epoch, held).1 is Ok,
        holds_parts(
            view.insert_all(epoch, held).0,
            epoch,
            whole,
            message,
            parts + spans(held),
        ),
    decreases held.len(),
{
    if held.len() == 0 {
        assert(parts + spans(held) =~= parts);
    } else {
        assert(is_part(held[0], whole, message));
        lemma_insert_part(view, epoch, whole, message, parts, held[0]);
        let rest = held.drop_first();
        assert forall|i: int| 0 <= i < rest.len() implies is_part(
            #[trigger] rest[i],
            whole,
            message,
        ) by {
            assert(rest[i] == held[i + 1]);
        }
        let first = spans(held)[0];
        lemma_insert_parts(
            view.insert(epoch, held[0]).0,
            epoch,
            whole,
            message,
            parts.push(first),
            rest,
        );
        assert(parts.push(first) + spans(rest) =~= parts + spans(held));
    }
}

proof fn lemma_pushes(
    view: BufferView,
    epoch: u16,
    whole: HandshakeHeader,
    message: Seq<u8>,
    records: Seq<Seq<u8>>,
)
    requires
        view.messages == Map::<u16, MessageView>::empty(),
        view.current == whole.message_sequence,
        whole.length == message.len() <= FRAGMENT_BUFFER_MAX_MESSAGE_LENGTH,
        forall|i: int|
            0 <= i < records.len() ==> carries(#[trigger] records[i], epoch, whole, message),
    ensures
        all_taken_in(view, records),
        holds_parts(after_pushes(view, records), epoch, whole, message, arrived(records)),
        forall|k: int|
            0 <= k < arrived(records).len() ==> 0 <= (#[trigger] arrived(records)[k]).0 <= arrived(
                records,
            )[k].1 <= message.len(),
    decreases records.len(),
{
    if records.len() > 0 {
        let before = records.drop_last();
        assert forall|i: int| 0 <= i < before.len() implies carries(
            #[trigger] before[i],
            epoch,
            whole,
            message,
        ) by {
            assert(before[i] == records[i]);
        }
        lemma_pushes(view, epoch, whole, message, before);
        assert(carries(records[records.len() - 1], epoch, whole, message));
        let held = fragments_of(records.last())->Ok_0;
        lemma_insert_parts(
            after_pushes(view, before),
            epoch,
            whole,
            message,
            arrived(before),
            held,
        );
        assert forall|k: int| 0 <= k < arrived(records).len() implies 0 <= (
        #[trigger] arrived(records)[k]).0 <= arrived(records)[k].1 <= message.len() by {
            if k < arrived(before).len() {
                assert(arrived(records)[k] == arrived(before)[k]);
            } else {
                let i = k - arrived(before).len();
                assert(is_part(held[i], whole, message));
                assert(arrived(records)[k] == spans(held)[i]);
            }
        }
    }
}

/// A buffer that holds parts of one message holds finitely many messages.
pub proof fn lemma_pushed_finite(
    view: BufferView,
    epoch: u16,
    whole: HandshakeHeader,
    message: Seq<u8>,
    records: Seq<Seq<u8>>,
)
    requires
        view.messages == Map::<u16, MessageView>::empty(),
        view.current == whole.message_sequence,
        whole.length == message.len() <= FRAGMENT_BUFFER_MAX_MESSAGE_LENGTH,
        forall|i: int|
            0 <= i < records.len() ==> carries(#[trigger] records[i], epoch, whole, message),
    ensures
        after_pushes(view, records).messages.dom().finite(),
        after_pushes(view, records).current == view.current,
{
    lemma_pushes(view, epoch, whole, message, records);
    let after = after_pushes(view, records);
    if arrived(records).len() > 0 {
        assert(after.messages.dom() =~= Set::empty().insert(whole.message_sequence));
    } else {
        assert(after.messages.dom() =~= Set::empty());
    }
}

/// Records that hold parts of the next message are all taken in by an empty buffer, in whatever
/// order they come and however the parts overlap or repeat. The message can then be taken out
/// exactly when the parts cover every byte of it; what is taken out is the message in one piece,
/// with its epoch, and nothing stays behind.
pub proof fn law_pushed_parts_pop_as_the_message(
    view: BufferView,
    epoch: u16,
    whole: HandshakeHeader,
    message: Seq<u8>,
    records: Seq<Seq<u8>>,
)
    requires
        view.messages == Map::<u16, MessageView>::empty(),
        view.current == whole.message_sequence,
        whole.length == message.len() <= FRAGMENT_BUFFER_MAX_MESSAGE_LENGTH,
        is_unfragmented(whole),
        forall|i: int|
            0 <= i < records.len() ==> carries(#[trigger] records[i], epoch, whole, message),
        arrived(records).len() > 0,
    ensures
        all_taken_in(view, records),
        ({
            let after = after_pushes(view, records);
            let taken_out = after.messages[after.current];
            &&& after.ready() <==> forall|i: int|
                0 <= i < message.len() ==> covered(arrived(records), i)
            &&& after.ready() ==> {
                &&& taken_out.header() == whole
                &&& taken_out.body == message
                &&& taken_out.epoch == epoch
                &&& after.popped().messages == Map::<u16, MessageView>::empty()
                &&& after.popped().size() == 0
            }
        }),
{
    lemma_pushes(view, epoch, whole, message, records);
    let parts = arrived(records);
    let after = after_pushes(view, records);
    let begun = MessageView::begun(epoch, whole);
    let rebuilt = write_parts(begun, message, parts);
    law_reassembles(epoch, whole, message, parts);
    lemma_written_shape(begun, message, parts);
    let held = after.messages[after.current];
    assert(held.got == rebuilt.got);
    assert(held.complete() == rebuilt.complete()) by {
        if rebuilt.complete() {
            assert forall|i: int| 0 <= i < held.got.len() implies #[trigger] held.got[i] by {
                assert(rebuilt.got[i]);
            }
        }
        if held.complete() {
            assert forall|i: int| 0 <= i < rebuilt.got.len() implies #[trigger] rebuilt.got[i] by {
                assert(held.got[i]);
            }
        }
    }
    assert(after.popped().messages =~= Map::<u16, MessageView>::empty());
    lemma_charges_none(after.popped(), 16);
}

/// A fragment of a message that is being reassembled does not change what is counted, so
/// duplicates and empty fragments cost nothing.
pub proof fn law_fragments_cost_nothing(view: BufferView, epoch: u16, fragment: Fragment)
    requires
        view.valid(),
        view.messages.contains_key(fragment.header.message_sequence),
    ensures
        view.insert(epoch, fragment).0.size() == view.size(),
{
    let seq = fragment.header.message_sequence;
    let message = view.messages[seq].write(
        fragment.header.fragment_offset as int,
        fragment.payload,
    );
    lemma_charges_put(view, message, 16);
}

/// Messages come out in order: a message that is complete waits for those before it.
pub proof fn law_messages_in_order(view: BufferView, seq: u16)
    requires
        view.valid(),
        view.messages.contains_key(seq),
        seq != view.current,
    ensures
        view.popped().messages.contains_key(seq),
        view.popped().messages[seq] == view.messages[seq],
{
}

/// The bytes of fragments one after the other.
pub open spec fn fragment_bytes(parts: Seq<Fragment>) -> Seq<u8>
    decreases parts.len(),
{
    if parts.len() == 0 {
        Seq::empty()
    } else {
        parts[0].header.bytes() + parts[0].payload + fragment_bytes(parts.drop_first())
    }
}

/// A record may hold any number of fragments, of one message or of several: all of them are found in
/// it, in order.
pub proof fn law_all_fragments_are_found(parts: Seq<Fragment>)
    requires
        forall|i: int|
            0 <= i < parts.len() ==> {
                &&& (#[trigger] parts[i]).header.handshake_type != HandshakeType::Invalid
                &&& parts[i].header.fragment_length == parts[i].payload.len()
                &&& parts[i].header.fragment_offset + parts[i].header.fragment_length
                    <= parts[i].header.length <= 0xff_ffff
            },
    ensures
        fragments(fragment_bytes(parts)) == Ok::<Seq<Fragment>, Error>(parts),
    decreases parts.len(),
{
    if parts.len() == 0 {
        assert(parts =~= Seq::<Fragment>::empty());
    } else {
        let first = parts[0];
        let others = parts.drop_first();
        assert forall|i: int| 0 <= i < others.len() implies {
            &&& (#[trigger] others[i]).header.handshake_type != HandshakeType::Invalid
            &&& others[i].header.fragment_length == others[i].payload.len()
            &&& others[i].header.fragment_offset + others[i].header.fragment_length
                <= others[i].header.length <= 0xff_ffff
        } by {
            assert(others[i] == parts[i + 1]);
        }
        law_all_fragments_are_found(others);
        lemma_first_fragment(first, fragment_bytes(others));
        assert(seq![first] + others =~= parts);
        let bytes = fragment_bytes(parts);
        assert(bytes.len() > 0);
        assert(fragments(bytes) == Ok::<Seq<Fragment>, Error>(seq![first] + others));
    }
}

#[verifier::spinoff_prover]
proof fn lemma_first_fragment(first: Fragment, rest: Seq<u8>)
    requires
        first.header.handshake_type != HandshakeType::Invalid,
        first.header.fragment_length == first.payload.len(),
        first.header.fragment_offset + first.header.fragment_length <= first.header.length
            <= 0xff_ffff,
    ensures
        (first.header.bytes() + first.payload + rest).len() >= 12,
        split(first.header.bytes() + first.payload + rest) == Ok::<
            (Fragment, Seq<u8>),
            Error,
        >((first, rest)),
{
    let header = first.header;
    let bytes = header.bytes() + first.payload + rest;
    record::law_handshake_header_round_trip(header, first.payload + rest);
    assert(bytes =~= header.bytes() + (first.payload + rest));
    let end = 12 + header.fragment_length;
    assert(bytes.subrange(12, end) =~= first.payload);
    assert(bytes.subrange(end, bytes.len() as int) =~= rest);
}

/// Fragments are taken in one after the other: taking in two groups of them comes to taking them in
/// together, as long as none of the first group is refused.
pub proof fn law_fragments_are_taken_in_turn(
    view: BufferView,
    epoch: u16,
    first: Seq<Fragment>,
    second: Seq<Fragment>,
)
    requires
        view.insert_all(epoch, first).1 is Ok,
    ensures
        view.insert_all(epoch, first + second) == view.insert_all(epoch, first).0.insert_all(
            epoch,
            second,
        ),
    decreases first.len(),
{
    if first.len() == 0 {
        assert(first + second =~= second);
    } else {
        assert((first + second)[0] == first[0]);
        assert((first + second).drop_first() =~= first.drop_first() + second);
        law_fragments_are_taken_in_turn(
            view.insert(epoch, first[0]).0,
            epoch,
            first.drop_first(),
            second,
        );
    }
}

/// How far a message is ahead of the one that is popped next, numbers going round.
pub open spec fn ahead(view: BufferView, seq: u16) -> int {
    (seq - view.current) % 65536
}

/// A fragment touches no message but its own. Where its message is not the next one or one of the
/// fifteen after it, nothing changes, and that is no fault.
pub proof fn law_fragment_touches_its_message_only(
    view: BufferView,
    epoch: u16,
    fragment: Fragment,
    other: u16,
)
    requires
        view.valid(),
    ensures
        ({
            let seq = fragment.header.message_sequence;
            let (after, result) = view.insert(epoch, fragment);
            &&& after.current == view.current
            &&& other != seq ==> {
                &&& after.messages.contains_key(other) == view.messages.contains_key(other)
                &&& view.messages.contains_key(other) ==> after.messages[other]
                    == view.messages[other]
            }
            &&& ahead(view, seq) >= 16 ==> after == view && result is Ok
        }),
{
    let seq = fragment.header.message_sequence;
    if seq >= view.current {
        assert((seq - view.current) % 65536 == seq - view.current);
    } else {
        assert((seq - view.current) % 65536 == seq - view.current + 65536);
    }
}

/// The first fragment of a message in the window begins it, unless the message is longer than a
/// message may be or there is no room for it beside the others: those are refused, and nothing
/// changes. Its bytes are where it says, and nothing else of the message is there.
pub proof fn law_first_fragment_begins_its_message(
    view: BufferView,
    epoch: u16,
    fragment: Fragment,
)
    requires
        ahead(view, fragment.header.message_sequence) < 16,
        !view.messages.contains_key(fragment.header.message_sequence),
        fragment.header.fragment_length == fragment.payload.len(),
        fragment.header.fragment_offset + fragment.payload.len() <= fragment.header.length,
    ensures
        ({
            let header = fragment.header;
            let (after, result) = view.insert(epoch, fragment);
            let fits = header.length <= FRAGMENT_BUFFER_MAX_MESSAGE_LENGTH && view.size() + size_for(
                header,
            ) < FRAGMENT_BUFFER_MAX_SIZE;
            &&& result is Ok <==> fits
            &&& !fits ==> after == view
            &&& fits ==> {
                let message = after.messages[header.message_sequence];
                &&& after.messages.contains_key(header.message_sequence)
                &&& message.handshake_type == header.handshake_type
                &&& message.message_sequence == header.message_sequence
                &&& message.epoch == epoch
                &&& message.body.len() == header.length
                &&& message.got.len() == header.length
                &&& forall|i: int|
                    0 <= i < header.length ==> (#[trigger] message.got[i]
                        <==> header.fragment_offset <= i < header.fragment_offset
                        + fragment.payload.len())
                &&& forall|i: int|
                    0 <= i < fragment.payload.len() ==> message.body[header.fragment_offset + i]
                        == #[trigger] fragment.payload[i]
            }
        }),
{
    let header = fragment.header;
    let seq = header.message_sequence;
    if seq >= view.current {
        assert((seq - view.current) % 65536 == seq - view.current);
    } else {
        assert((seq - view.current) % 65536 == seq - view.current + 65536);
    }
    let (after, result) = view.insert(epoch, fragment);
    if result is Ok {
        let begun = MessageView::begun(epoch, header);
        if fragment.payload.len() > 0 {
            assert(!begun.got[0]);
            assert(!begun.complete());
        }
    }
}

/// A later fragment has to agree with its message in epoch, type and length: one that does not is
/// refused, and nothing changes. One that does adds its bytes, unless the message is complete, and
/// takes none away.
pub proof fn law_later_fragment_adds_its_bytes(view: BufferView, epoch: u16, fragment: Fragment)
    requires
        ahead(view, fragment.header.message_sequence) < 16,
        view.messages.contains_key(fragment.header.message_sequence),
        view.messages[fragment.header.message_sequence].message_sequence
            == fragment.header.message_sequence,
        view.messages[fragment.header.message_sequence].got.len()
            == view.messages[fragment.header.message_sequence].body.len(),
        fragment.header.fragment_length == fragment.payload.len(),
        fragment.header.fragment_offset + fragment.payload.len() <= fragment.header.length,
    ensures
        ({
            let header = fragment.header;
            let (after, result) = view.insert(epoch, fragment);
            let before = view.messages[header.message_sequence];
            let message = after.messages[header.message_sequence];
            let agrees = before.epoch == epoch && before.handshake_type == header.handshake_type
                && before.body.len() == header.length;
            &&& result is Ok <==> agrees
            &&& !agrees ==> after == view && result == Err::<(), Error>(Error::ErrLengthMismatch)
            &&& agrees ==> {
                &&& after.messages.contains_key(header.message_sequence)
                &&& forall|i: int|
                    0 <= i < header.length ==> (#[trigger] message.got[i] <==> before.got[i]
                        || header.fragment_offset <= i < header.fragment_offset
                        + fragment.payload.len())
                &&& (forall|i: int| 0 <= i < header.length ==> #[trigger] before.got[i])
                    ==> message == before
                &&& (exists|i: int| 0 <= i < header.length && !#[trigger] before.got[i])
                    ==> forall|i: int|
                    0 <= i < fragment.payload.len() ==> message.body[header.fragment_offset + i]
                        == #[trigger] fragment.payload[i]
                &&& message.handshake_type == before.handshake_type
                &&& message.epoch == before.epoch
                &&& message.body.len() == before.body.len()
            }
        }),
{
    let seq = fragment.header.message_sequence;
    if seq >= view.current {
        assert((seq - view.current) % 65536 == seq - view.current);
    } else {
        assert((seq - view.current) % 65536 == seq - view.current + 65536);
    }
}

} // verus!
