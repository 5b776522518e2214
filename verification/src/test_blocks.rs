//! Randomised media blocks, reproducible from a seed.
//!
//! The blocks aim at what a recovery representation has to carry byte for byte: unequal payload
//! lengths (0 to 1,500 bytes, weighted towards the 8/16/32/64-byte vector boundaries), lists of
//! contributing sources, every header-extension profile, RTP padding, and headers whose
//! `extensions_padding` claims more bytes than are written. A few packets are made deliberately
//! impossible to write, so the paths that give up are covered too.

use vstd::prelude::*;

use crate::rtp;
use crate::rtp::{Extension, Header, Packet};

verus! {

/// The source of every media packet.
pub const MEDIA_SSRC: u32 = 0x1B63_FA42;

/// The profile of one-byte header extensions.
pub const ONE_BYTE_PROFILE: u16 = 0xBEDE;

/// The profile of two-byte header extensions.
pub const TWO_BYTE_PROFILE: u16 = 0x1000;

/// A profile that carries a single block of words.
pub const WORDS_PROFILE: u16 = 0x1234;

/// The state that a seed gives.
pub open spec fn seeded(seed: u64) -> u64 {
    (((seed * 0x9E37_79B9_7F4A_7C15) % 0x1_0000_0000_0000_0000) as u64) | 1
}

/// The state after a draw.
pub open spec fn shifted(state: u64) -> u64 {
    let one = state ^ (state >> 12);
    let two = one ^ (one << 25);
    two ^ (two >> 27)
}

/// What a draw gives.
pub open spec fn drawn(state: u64) -> u64 {
    ((shifted(state) * 0x2545_F491_4F6C_DD1D) % 0x1_0000_0000_0000_0000) as u64
}

/// What a draw from `0..=max` gives.
pub open spec fn drawn_upto(state: u64, max: nat) -> nat {
    drawn(state) as nat % (max + 1)
}

/// What a draw with one chance in `one_in` gives.
pub open spec fn drawn_chance(state: u64, one_in: u64) -> bool {
    if one_in == 0 {
        drawn(state) == 0
    } else {
        drawn(state) % one_in == 0
    }
}

/// The state after so many draws.
pub open spec fn shifted_times(state: u64, count: nat) -> u64
    decreases count,
{
    if count == 0 {
        state
    } else {
        shifted(shifted_times(state, (count - 1) as nat))
    }
}

/// The bytes that draws give, the low byte of each.
pub open spec fn drawn_bytes(state: u64, len: nat) -> Seq<u8> {
    Seq::new(len, |i: int| drawn(shifted_times(state, i as nat)) as u8)
}

/// The words that draws give, the low half of each.
pub open spec fn drawn_words(state: u64, len: nat) -> Seq<u32> {
    Seq::new(len, |i: int| drawn(shifted_times(state, i as nat)) as u32)
}

/// A small deterministic generator (xorshift64*), so a failure reproduces from its seed.
pub struct Rng {
    state: u64,
}

impl View for Rng {
    type V = u64;

    closed spec fn view(&self) -> u64 {
        self.state
    }
}

impl Rng {
    /// The generator that a seed gives.
    pub fn new(seed: u64) -> (rng: Self)
        ensures
            rng@ == seeded(seed),
    {
        Rng { state: seed.wrapping_mul(0x9E37_79B9_7F4A_7C15) | 1 }
    }

    /// Draws a word.
    pub fn next(&mut self) -> (value: u64)
        ensures
            value == drawn(old(self)@),
            final(self)@ == shifted(old(self)@),
    {
        self.state = self.state ^ (self.state >> 12);
        self.state = self.state ^ (self.state << 25);
        self.state = self.state ^ (self.state >> 27);
        self.state.wrapping_mul(0x2545_F491_4F6C_DD1D)
    }

    /// Draws from `0..=max`.
    pub fn upto(&mut self, max: usize) -> (value: usize)
        requires
            max < u64::MAX,
        ensures
            value == drawn_upto(old(self)@, max as nat),
            value <= max,
            final(self)@ == shifted(old(self)@),
    {
        let value: u64 = self.next();
        (value % (max as u64 + 1)) as usize
    }

    /// Draws with one chance in `one_in`.
    pub fn chance(&mut self, one_in: u64) -> (hit: bool)
        ensures
            hit == drawn_chance(old(self)@, one_in),
            final(self)@ == shifted(old(self)@),
    {
        let value: u64 = self.next();
        if one_in == 0 {
            value == 0
        } else {
            value % one_in == 0
        }
    }

    /// Draws bytes.
    pub fn bytes(&mut self, len: usize) -> (bytes: bytes::Bytes)
        ensures
            rtp::content(bytes) == drawn_bytes(old(self)@, len as nat),
            final(self)@ == shifted_times(old(self)@, len as nat),
    {
        let ghost start = self@;
        let mut data: Vec<u8> = Vec::new();
        let mut i: usize = 0;
        while i < len
            invariant
                i <= len,
                data@ == drawn_bytes(start, i as nat),
                self@ == shifted_times(start, i as nat),
            decreases len - i,
        {
            let value: u64 = self.next();
            data.push(value as u8);
            i += 1;
            assert(shifted_times(start, i as nat) == shifted(shifted_times(start, (i - 1) as nat)));
            assert(data@ =~= drawn_bytes(start, i as nat));
        }
        rtp::bytes_from(data)
    }

    /// Draws words.
    fn words(&mut self, len: usize) -> (words: Vec<u32>)
        ensures
            words@ == drawn_words(old(self)@, len as nat),
            final(self)@ == shifted_times(old(self)@, len as nat),
    {
        let ghost start = self@;
        let mut words: Vec<u32> = Vec::new();
        let mut i: usize = 0;
        while i < len
            invariant
                i <= len,
                words@ == drawn_words(start, i as nat),
                self@ == shifted_times(start, i as nat),
            decreases len - i,
        {
            let value: u64 = self.next();
            words.push(value as u32);
            i += 1;
            assert(shifted_times(start, i as nat) == shifted(shifted_times(start, (i - 1) as nat)));
            assert(words@ =~= drawn_words(start, i as nat));
        }
        words
    }
}

/// Payload lengths either side of the vector widths that recovery works in.
pub open spec fn boundary_lengths() -> Seq<usize> {
    seq![
        0usize,
        1,
        7,
        8,
        9,
        15,
        16,
        17,
        31,
        32,
        33,
        63,
        64,
        65,
        95,
        96,
        97,
        127,
        128,
        129,
        1199,
        1200,
        1201,
        1500,
    ]
}

/// The payload length that draws give, and the state after them.
pub open spec fn drawn_length(state: u64) -> (int, u64) {
    let shape = drawn_upto(state, 3);
    let next = shifted(state);
    (
        if shape == 0 {
            boundary_lengths()[drawn_upto(next, 23) as int] as int
        } else if shape == 1 {
            drawn_upto(next, 1500) as int
        } else if shape == 2 {
            1100 + drawn_upto(next, 100) as int
        } else {
            drawn_upto(next, 80) as int
        },
        shifted(next),
    )
}

/// Draws a payload length.
pub fn payload_length(rng: &mut Rng) -> (len: usize)
    ensures
        (len as int, final(rng)@) == drawn_length(old(rng)@),
        len <= 1500,
{
    let shape: usize = rng.upto(3);
    if shape == 0 {
        let lengths: [usize; 24] = [
            0,
            1,
            7,
            8,
            9,
            15,
            16,
            17,
            31,
            32,
            33,
            63,
            64,
            65,
            95,
            96,
            97,
            127,
            128,
            129,
            1199,
            1200,
            1201,
            1500,
        ];
        assert(lengths@ =~= boundary_lengths());
        lengths[rng.upto(23)]
    } else if shape == 1 {
        rng.upto(1500)
    } else if shape == 2 {
        1100 + rng.upto(100)
    } else {
        rng.upto(80)
    }
}

/// An extension that draws give, with an identifier from 1 to `ids + 1` and a payload of `least` to
/// `least + spread` bytes, and the state after them.
pub open spec fn drawn_extension(state: u64, ids: nat, least: nat, spread: nat) -> (
    rtp::ExtensionView,
    u64,
) {
    let id = (1 + drawn_upto(state, ids)) as u8;
    let len = least + drawn_upto(shifted(state), spread);
    let start = shifted(shifted(state));
    (
        rtp::ExtensionView { id, payload: drawn_bytes(start, len) },
        shifted_times(start, len),
    )
}

/// The extensions that draws give, so many of one shape, and the state after them.
pub open spec fn drawn_extensions(
    state: u64,
    ids: nat,
    least: nat,
    spread: nat,
    count: nat,
) -> (Seq<rtp::ExtensionView>, u64)
    decreases count,
{
    if count == 0 {
        (Seq::empty(), state)
    } else {
        let (before, at) = drawn_extensions(state, ids, least, spread, (count - 1) as nat);
        let (extension, after) = drawn_extension(at, ids, least, spread);
        (before.push(extension), after)
    }
}

/// A header with the extensions that draws give, and the state after them.
pub open spec fn extended(state: u64, header: rtp::HeaderView) -> (rtp::HeaderView, u64) {
    let shape = drawn_upto(state, 3);
    let next = shifted(state);
    if shape == 0 {
        (header, next)
    } else if shape == 1 {
        let (extensions, after) = drawn_extensions(
            shifted(next),
            13,
            1,
            15,
            1 + drawn_upto(next, 3),
        );
        (with_extensions(header, ONE_BYTE_PROFILE, extensions), after)
    } else if shape == 2 {
        let (extensions, after) = drawn_extensions(
            shifted(next),
            254,
            0,
            40,
            1 + drawn_upto(next, 2),
        );
        (with_extensions(header, TWO_BYTE_PROFILE, extensions), after)
    } else {
        let len = 4 * drawn_upto(next, 5);
        let words = rtp::ExtensionView { id: 0, payload: drawn_bytes(shifted(next), len) };
        (
            with_extensions(header, WORDS_PROFILE, seq![words]),
            shifted_times(shifted(next), len),
        )
    }
}

/// A header with extensions of a profile behind those it has.
pub open spec fn with_extensions(
    header: rtp::HeaderView,
    profile: u16,
    extensions: Seq<rtp::ExtensionView>,
) -> rtp::HeaderView {
    rtp::HeaderView {
        extension: true,
        extension_profile: profile,
        extensions: header.extensions + extensions,
        ..header
    }
}

/// A header with padding behind its extensions, where draws say so, and the state after them.
///
/// The padding is more than is ever written: the written packet ends in bytes left as they were.
pub open spec fn padded(state: u64, header: rtp::HeaderView) -> (rtp::HeaderView, u64) {
    if !header.extension {
        (header, state)
    } else if drawn_chance(state, 8) {
        let next = shifted(state);
        (
            rtp::HeaderView {
                extensions_padding: (1 + drawn_upto(next, 6)) as usize,
                ..header
            },
            shifted(next),
        )
    } else {
        (header, shifted(state))
    }
}

/// Draws extensions of one shape onto a list.
fn push_extensions(
    rng: &mut Rng,
    extensions: &mut Vec<Extension>,
    ids: usize,
    least: usize,
    spread: usize,
    count: usize,
)
    requires
        ids <= 254,
        least <= 40,
        spread <= 40,
    ensures
        (rtp::extension_views(final(extensions)@), final(rng)@) == ({
            let (drawn, after) = drawn_extensions(
                old(rng)@,
                ids as nat,
                least as nat,
                spread as nat,
                count as nat,
            );
            (rtp::extension_views(old(extensions)@) + drawn, after)
        }),
{
    let ghost start = rng@;
    let ghost had = rtp::extension_views(extensions@);
    let mut i: usize = 0;
    assert(had + Seq::<rtp::ExtensionView>::empty() =~= had);
    while i < count
        invariant
            i <= count,
            ids <= 254,
            least <= 40,
            spread <= 40,
            (rtp::extension_views(extensions@), rng@) == ({
                let (drawn, after) = drawn_extensions(
                    start,
                    ids as nat,
                    least as nat,
                    spread as nat,
                    i as nat,
                );
                (had + drawn, after)
            }),
        decreases count - i,
    {
        let ghost listed = rtp::extension_views(extensions@);
        let ghost at = rng@;
        let id: u8 = (1 + rng.upto(ids)) as u8;
        let len: usize = least + rng.upto(spread);
        let payload = rng.bytes(len);
        extensions.push(Extension { id, payload });
        i += 1;
        proof {
            let (drawn, _) = drawn_extensions(
                start,
                ids as nat,
                least as nat,
                spread as nat,
                (i - 1) as nat,
            );
            let (extension, _) = drawn_extension(at, ids as nat, least as nat, spread as nat);
            assert(rtp::extension_views(extensions@) =~= listed.push(extension));
            assert(had + drawn.push(extension) =~= (had + drawn).push(extension));
        }
    }
}

/// Draws header extensions in one of the three profiles, all of which can be written.
pub fn add_extensions(rng: &mut Rng, header: &mut Header)
    ensures
        (final(header)@, final(rng)@) == ({
            let (with, at) = extended(old(rng)@, old(header)@);
            padded(at, with)
        }),
{
    let ghost before = header@;
    let ghost start = rng@;
    let shape: usize = rng.upto(3);
    if shape == 1 {
        header.extension = true;
        header.extension_profile = ONE_BYTE_PROFILE;
        let count: usize = 1 + rng.upto(3);
        push_extensions(rng, &mut header.extensions, 13, 1, 15, count);
    } else if shape == 2 {
        header.extension = true;
        header.extension_profile = TWO_BYTE_PROFILE;
        let count: usize = 1 + rng.upto(2);
        push_extensions(rng, &mut header.extensions, 254, 0, 40, count);
    } else if shape == 3 {
        header.extension = true;
        header.extension_profile = WORDS_PROFILE;
        let len: usize = 4 * rng.upto(5);
        let payload = rng.bytes(len);
        header.extensions.push(Extension { id: 0, payload });
        assert(header@.extensions =~= before.extensions + seq![
            rtp::ExtensionView { id: 0, payload: rtp::content(payload) },
        ]);
    }
    assert(header@ =~= extended(start, before).0);
    assert(rng@ == extended(start, before).1);
    if header.extension && rng.chance(8) {
        header.extensions_padding = 1 + rng.upto(6);
    }
}

/// The header that draws begin a packet with, and the state after them.
pub open spec fn drawn_header(state: u64, sequence_number: u16) -> (rtp::HeaderView, u64) {
    let one = shifted(state);
    let two = shifted(one);
    let three = shifted(two);
    let four = shifted(three);
    let header = rtp::HeaderView {
        version: 2,
        marker: drawn_chance(state, 2),
        payload_type: drawn_upto(one, 127) as u8,
        sequence_number,
        timestamp: drawn(two) as u32,
        ssrc: MEDIA_SSRC,
        ..rtp::empty_header()
    };
    if drawn_chance(three, 4) {
        let count = drawn_upto(four, 15);
        let five = shifted(four);
        (
            rtp::HeaderView { csrc: drawn_words(five, count), ..header },
            shifted_times(five, count),
        )
    } else {
        (header, four)
    }
}

/// A header as draws make it exotic, and the state after them: it may claim RTP padding, and it may
/// carry two extensions under a profile that holds one, which cannot be written.
pub open spec fn made_exotic(state: u64, header: rtp::HeaderView) -> (rtp::HeaderView, u64) {
    let next = shifted(state);
    let claims = rtp::HeaderView { padding: header.padding || drawn_chance(state, 6), ..header };
    let start = shifted(next);
    if drawn_chance(next, 25) {
        let between = shifted_times(start, 4);
        (
            rtp::HeaderView {
                extension: true,
                extension_profile: WORDS_PROFILE,
                extensions: seq![
                    rtp::ExtensionView { id: 0, payload: drawn_bytes(start, 4) },
                    rtp::ExtensionView { id: 0, payload: drawn_bytes(between, 4) },
                ],
                ..claims
            },
            shifted_times(between, 4),
        )
    } else {
        (claims, start)
    }
}

/// The whole header that draws give, and the state after them.
pub open spec fn finished_header(state: u64, sequence_number: u16, exotic: bool) -> (
    rtp::HeaderView,
    u64,
) {
    let (begun, one) = drawn_header(state, sequence_number);
    let (with, two) = extended(one, begun);
    let (full, three) = padded(two, with);
    if exotic {
        made_exotic(three, full)
    } else {
        (rtp::HeaderView { extensions_padding: 0, ..full }, three)
    }
}

/// The packet that draws give, and the state after them.
#[verifier::opaque]
pub open spec fn drawn_packet(state: u64, sequence_number: u16, exotic: bool) -> (
    rtp::PacketView,
    u64,
) {
    let (header, at) = finished_header(state, sequence_number, exotic);
    let (len, start) = drawn_length(at);
    (
        rtp::PacketView { header, payload: drawn_bytes(start, len as nat) },
        shifted_times(start, len as nat),
    )
}

/// Draws the beginning of a header.
fn begin_header(rng: &mut Rng, sequence_number: u16) -> (header: Header)
    ensures
        (header@, final(rng)@) == drawn_header(old(rng)@, sequence_number),
{
    let marker = rng.chance(2);
    let payload_type: u8 = rng.upto(127) as u8;
    let timestamp: u32 = rng.next() as u32;
    let mut header = Header {
        version: 2,
        marker,
        payload_type,
        sequence_number,
        timestamp,
        ssrc: MEDIA_SSRC,
        ..Header::default()
    };
    let ghost bare = header@;
    if rng.chance(4) {
        let count: usize = rng.upto(15);
        header.csrc = rng.words(count);
    }
    assert(header@.extensions =~= Seq::empty());
    assert(bare.csrc =~= Seq::empty());
    header
}

/// Draws what makes a header exotic.
fn make_exotic(rng: &mut Rng, header: &mut Header)
    ensures
        (final(header)@, final(rng)@) == made_exotic(old(rng)@, old(header)@),
{
    if rng.chance(6) {
        header.padding = true;
    }
    if rng.chance(25) {
        header.extension = true;
        header.extension_profile = WORDS_PROFILE;
        let first = rng.bytes(4);
        let second = rng.bytes(4);
        let mut extensions: Vec<Extension> = Vec::new();
        extensions.push(Extension { id: 0, payload: first });
        extensions.push(Extension { id: 0, payload: second });
        header.extensions = extensions;
        assert(header@.extensions =~= seq![
            rtp::ExtensionView { id: 0, payload: rtp::content(first) },
            rtp::ExtensionView { id: 0, payload: rtp::content(second) },
        ]);
    }
}

/// Draws one media packet. With `exotic` false it is an ordinary packet that survives a round trip
/// through the wire unchanged; with it true it may also carry RTP padding, claim more padding
/// behind its extensions than is written, or be impossible to write at all.
pub fn media_packet(rng: &mut Rng, sequence_number: u16, exotic: bool) -> (packet: Packet)
    ensures
        (packet@, final(rng)@) == drawn_packet(old(rng)@, sequence_number, exotic),
{
    let mut header = begin_header(rng, sequence_number);
    add_extensions(rng, &mut header);
    if exotic {
        make_exotic(rng, &mut header);
    } else {
        header.extensions_padding = 0;
    }
    let len: usize = payload_length(rng);
    let payload = rng.bytes(len);
    reveal(drawn_packet);
    Packet { header, payload }
}

/// The sequence number that draws begin a block with, and the state after them.
pub open spec fn drawn_base(state: u64) -> (u16, u64) {
    let next = shifted(state);
    (
        if drawn_chance(state, 4) {
            (u16::MAX - drawn_upto(next, 4)) as u16
        } else {
            drawn(next) as u16
        },
        shifted(next),
    )
}

/// The packets that draws give behind a sequence number, and the state after them.
pub open spec fn drawn_packets(state: u64, base: u16, count: nat, exotic: bool) -> (
    Seq<rtp::PacketView>,
    u64,
)
    decreases count,
{
    if count == 0 {
        (Seq::empty(), state)
    } else {
        let (before, at) = drawn_packets(state, base, (count - 1) as nat, exotic);
        let number = ((base + (count - 1)) % 0x1_0000) as u16;
        let (packet, after) = drawn_packet(at, number, exotic);
        (before.push(packet), after)
    }
}

/// The models of packets.
pub open spec fn packet_views(packets: Seq<Packet>) -> Seq<rtp::PacketView> {
    Seq::new(packets.len(), |i: int| packets[i]@)
}

/// Draws `count` consecutive media packets starting at a random sequence number, which may wrap.
pub fn media_block(rng: &mut Rng, count: usize, exotic: bool) -> (packets: Vec<Packet>)
    ensures
        (packet_views(packets@), final(rng)@) == ({
            let (base, at) = drawn_base(old(rng)@);
            drawn_packets(at, base, count as nat, exotic)
        }),
{
    let base: u16 = if rng.chance(4) {
        u16::MAX - rng.upto(4) as u16
    } else {
        rng.next() as u16
    };
    let ghost start = rng@;
    let mut packets: Vec<Packet> = Vec::new();
    let mut offset: usize = 0;
    let mut number: u16 = base;
    assert(packet_views(packets@) =~= Seq::empty());
    while offset < count
        invariant
            offset <= count,
            number == (base + offset) % 0x1_0000,
            (packet_views(packets@), rng@) == drawn_packets(start, base, offset as nat, exotic),
        decreases count - offset,
    {
        let ghost had = packet_views(packets@);
        let packet = media_packet(rng, number, exotic);
        packets.push(packet);
        number = number.wrapping_add(1);
        offset += 1;
        assert(packet_views(packets@) =~= had.push(packet@));
    }
    packets
}

/// The packets of a block are numbered one after the other from the block's first number, wrapping
/// around behind the last, and all come from one source.
pub proof fn law_block_is_consecutive(state: u64, base: u16, count: nat, exotic: bool)
    ensures
        drawn_packets(state, base, count, exotic).0.len() == count,
        forall|i: int|
            #![trigger drawn_packets(state, base, count, exotic).0[i]]
            0 <= i < count ==> {
                let header = drawn_packets(state, base, count, exotic).0[i].header;
                &&& header.sequence_number == (base + i) % 0x1_0000
                &&& header.ssrc == MEDIA_SSRC
                &&& header.version == 2
            },
    decreases count,
{
    reveal(drawn_packet);
    if count > 0 {
        law_block_is_consecutive(state, base, (count - 1) as nat, exotic);
    }
}

/// Whether an extension can be written under a profile.
pub open spec fn writable(extension: rtp::ExtensionView, profile: u16) -> bool {
    if profile == ONE_BYTE_PROFILE {
        1 <= extension.id <= 14 && 1 <= extension.payload.len() <= 16
    } else if profile == TWO_BYTE_PROFILE {
        1 <= extension.id && extension.payload.len() <= 255
    } else {
        extension.id == 0 && extension.payload.len() % 4 == 0
    }
}

/// An ordinary packet claims no padding of either kind, carries at most 1,500 bytes, and has only
/// extensions that its profile can write, a single one under the profile that holds one.
pub proof fn law_ordinary_packets_can_be_written(state: u64, sequence_number: u16)
    ensures
        ({
            let packet = drawn_packet(state, sequence_number, false).0;
            let header = packet.header;
            &&& !header.padding
            &&& header.extensions_padding == 0
            &&& packet.payload.len() <= 1500
            &&& header.csrc.len() <= 15
            &&& header.payload_type <= 127
            &&& header.extension <==> header.extensions.len() > 0
            &&& header.extension_profile == WORDS_PROFILE ==> header.extensions.len() == 1
            &&& forall|i: int|
                0 <= i < header.extensions.len() ==> writable(
                    #[trigger] header.extensions[i],
                    header.extension_profile,
                )
        }),
{
    reveal(drawn_packet);
    let (begun, one) = drawn_header(state, sequence_number);
    lemma_extensions_writable(shifted(shifted(one)), 13, 1, 15, 1 + drawn_upto(shifted(one), 3));
    lemma_extensions_writable(shifted(shifted(one)), 254, 0, 40, 1 + drawn_upto(shifted(one), 2));
    assert(begun.extensions.len() == 0);
    assert(boundary_lengths().len() == 24);
    let (header, at) = finished_header(state, sequence_number, false);
    assert(drawn_length(at).0 <= 1500);
}

/// The extensions of one shape keep within it.
proof fn lemma_extensions_writable(state: u64, ids: nat, least: nat, spread: nat, count: nat)
    requires
        ids <= 254,
    ensures
        drawn_extensions(state, ids, least, spread, count).0.len() == count,
        forall|i: int|
            #![trigger drawn_extensions(state, ids, least, spread, count).0[i]]
            0 <= i < count ==> {
                let extension = drawn_extensions(state, ids, least, spread, count).0[i];
                &&& 1 <= extension.id <= ids + 1
                &&& least <= extension.payload.len() <= least + spread
            },
    decreases count,
{
    if count > 0 {
        lemma_extensions_writable(state, ids, least, spread, (count - 1) as nat);
    }
}

} // verus!
