//! Reception statistics of one remote stream, for RTCP receiver reports.

use crate::bitmap;
use crate::random::random_u32;
use crate::rtcp::{ReceiverReport, ReceptionReport, SenderReport};
use crate::rtp::Packet;
use crate::seqnum::UINT16_SIZE_HALF;
use crate::time;
use crate::time::{Instant, SECOND};
use vstd::prelude::*;

verus! {

/// Number of packets tracked per bitmap word.
pub const PACKETS_PER_ENTRY: usize = 64;

/// Bitmap words that a stream keeps.
pub const DEFAULT_SIZE: usize = 128;

/// The largest loss count that a report can hold.
pub const MAX_LOST: u32 = 0xFF_FFFF;

/// What is known of one remote stream.
///
/// The jitter estimate is not kept here: it is handed in where a report is made.
pub struct ReceiverStream {
    /// The stream.
    pub ssrc: u32,
    /// Who reports on it.
    pub receiver_ssrc: u32,
    /// Ticks per second of the media clock.
    pub clock_rate: u32,
    /// Bitmap for tracking received packets. Each word tracks 64 packets.
    pub packets: Vec<u64>,
    /// How often the sequence number wrapped.
    pub seq_num_cycles: u16,
    /// The newest sequence number received.
    pub last_seq_num: u16,
    /// The newest sequence number at the last report.
    pub last_report_seq_num: u16,
    /// Media timestamp of the last packet.
    pub last_rtp_time_rtp: u32,
    /// When the last packet arrived.
    pub last_rtp_time_time: Option<Instant>,
    /// The middle 32 bits of the last sender report's NTP timestamp.
    pub last_sender_report: u32,
    /// When the last sender report arrived.
    pub last_sender_report_time: Option<Instant>,
    /// Packets lost in all.
    pub total_lost: u32,
}

/// How many of the packets after `last_report` and before `last` were not received, walking the
/// bitmap packet by packet.
pub open spec fn lost_between(packets: Seq<u64>, last_report: u16, last: u16) -> nat {
    if last == last_report {
        0
    } else {
        bitmap::zero_offsets(
            packets,
            last_report.wrapping_add(1) as int,
            (last.wrapping_sub(last_report) - 1) as nat,
        ).len()
    }
}

/// A length of time in 65536ths of a second, as far as 32 bits hold it.
pub open spec fn delay_units(nanos: int) -> int {
    let units = nanos * 65536 / SECOND as int;
    if units > u32::MAX {
        u32::MAX as int
    } else {
        units
    }
}

impl ReceiverStream {
    /// The bitmap has its size, and the loss count fits a report.
    pub open spec fn wf(&self) -> bool {
        &&& self.packets@.len() == DEFAULT_SIZE
        &&& self.total_lost <= MAX_LOST
    }

    /// A stream that nothing has been received of, reported on under a random SSRC.
    pub fn new(ssrc: u32, clock_rate: u32) -> (stream: Self)
        ensures
            stream.wf(),
            stream.fresh(ssrc, stream.receiver_ssrc, clock_rate),
    {
        ReceiverStream::with_receiver_ssrc(ssrc, random_u32(), clock_rate)
    }

    /// Whether this is a stream that nothing has been received of.
    pub open spec fn fresh(&self, ssrc: u32, receiver_ssrc: u32, clock_rate: u32) -> bool {
        &&& self.ssrc == ssrc
        &&& self.receiver_ssrc == receiver_ssrc
        &&& self.clock_rate == clock_rate
        &&& self.packets@ == Seq::new(DEFAULT_SIZE as nat, |i: int| 0u64)
        &&& self.seq_num_cycles == 0
        &&& self.last_seq_num == 0
        &&& self.last_report_seq_num == 0
        &&& self.last_rtp_time_rtp == 0
        &&& self.last_rtp_time_time is None
        &&& self.last_sender_report == 0
        &&& self.last_sender_report_time is None
        &&& self.total_lost == 0
    }

    /// A stream that nothing has been received of, reported on under `receiver_ssrc`.
    pub fn with_receiver_ssrc(ssrc: u32, receiver_ssrc: u32, clock_rate: u32) -> (stream: Self)
        ensures
            stream.wf(),
            stream.fresh(ssrc, receiver_ssrc, clock_rate),
    {
        let packets: Vec<u64> = vec![0u64; DEFAULT_SIZE];
        assert(packets@ =~= Seq::new(DEFAULT_SIZE as nat, |i: int| 0u64));
        ReceiverStream {
            ssrc,
            receiver_ssrc,
            clock_rate,
            packets,
            seq_num_cycles: 0,
            last_seq_num: 0,
            last_report_seq_num: 0,
            last_rtp_time_rtp: 0,
            last_rtp_time_time: None,
            last_sender_report: 0,
            last_sender_report_time: None,
            total_lost: 0,
        }
    }

    /// Whether the bitmap says that `seq` was received.
    pub open spec fn received(&self, seq: u16) -> bool {
        bitmap::bit_at(self.packets@, seq as int)
    }

    /// Mark `seq` as received.
    pub fn set_received(&mut self, seq: u16)
        requires
            old(self).wf(),
        ensures
            *final(self) == (ReceiverStream { packets: final(self).packets, ..*old(self) }),
            final(self).wf(),
            forall|pos: int| #[trigger]
                bitmap::bit_at(final(self).packets@, pos) == (bitmap::bit_at(old(self).packets@, pos) || pos % 8192
                    == seq as int % 8192),
    {
        let pos: usize = (seq % 8192) as usize;
        let before: u64 = self.packets[pos / PACKETS_PER_ENTRY];
        let mask: u64 = 1u64 << ((pos % PACKETS_PER_ENTRY) as u64);
        self.packets[pos / PACKETS_PER_ENTRY] = before | mask;
        assert forall|at: int| #[trigger] bitmap::bit_at(self.packets@, at) == (bitmap::bit_at(
            old(self).packets@,
            at,
        ) || at % 8192 == seq as int % 8192) by {
            let p = at % 8192;
            crate::bits::lemma_or(before, mask, p % 64);
            crate::bits::lemma_single((pos % PACKETS_PER_ENTRY) as u64, p % 64);
        }
    }

    /// Mark `seq` as not received.
    pub fn del_received(&mut self, seq: u16)
        requires
            old(self).wf(),
        ensures
            *final(self) == (ReceiverStream { packets: final(self).packets, ..*old(self) }),
            final(self).wf(),
            forall|pos: int| #[trigger]
                bitmap::bit_at(final(self).packets@, pos) == (bitmap::bit_at(old(self).packets@, pos) && pos % 8192
                    != seq as int % 8192),
    {
        let pos: usize = (seq % 8192) as usize;
        let before: u64 = self.packets[pos / PACKETS_PER_ENTRY];
        let mask: u64 = 1u64 << ((pos % PACKETS_PER_ENTRY) as u64);
        self.packets[pos / PACKETS_PER_ENTRY] = before & !mask;
        assert forall|at: int| #[trigger] bitmap::bit_at(self.packets@, at) == (bitmap::bit_at(
            old(self).packets@,
            at,
        ) && at % 8192 != seq as int % 8192) by {
            let p = at % 8192;
            crate::bits::lemma_and(before, !mask, p % 64);
            crate::bits::lemma_not(mask, p % 64);
            crate::bits::lemma_single((pos % PACKETS_PER_ENTRY) as u64, p % 64);
        }
    }

    /// Whether `seq` is marked as received.
    pub fn get_received(&self, seq: u16) -> (received: bool)
        requires
            self.wf(),
        ensures
            received == self.received(seq),
    {
        let pos: usize = (seq % 8192) as usize;
        let bit: u64 = (pos % PACKETS_PER_ENTRY) as u64;
        let word: u64 = self.packets[pos / PACKETS_PER_ENTRY];
        proof {
            crate::bits::lemma_test(word, bit);
        }
        (word & (1u64 << bit)) != 0
    }

    /// Whether `seq` is newer than what was received so far.
    pub open spec fn in_order(&self, seq: u16) -> bool {
        0 < seq.wrapping_sub(self.last_seq_num) < UINT16_SIZE_HALF
    }

    /// Take note of a packet that arrived at `now`.
    ///
    /// A jump marks the skipped packets as not received, after the packet itself was marked: a
    /// jump of more than the bitmap's 8,192 packets covers every bit, the packet's included, and
    /// clears the whole bitmap.
    pub fn process_rtp(&mut self, now: Instant, pkt: &Packet)
        requires
            old(self).wf(),
        ensures
            final(self).wf(),
            *final(self) == (ReceiverStream {
                packets: final(self).packets,
                seq_num_cycles: final(self).seq_num_cycles,
                last_seq_num: final(self).last_seq_num,
                last_report_seq_num: final(self).last_report_seq_num,
                last_rtp_time_rtp: pkt@.header.timestamp,
                last_rtp_time_time: Some(now),
                ..*old(self)
            }),
            // The first packet
            old(self).last_rtp_time_time is None ==> ({
                let seq = pkt@.header.sequence_number;
                &&& final(self).last_seq_num == seq
                &&& final(self).last_report_seq_num == seq.wrapping_sub(1)
                &&& final(self).seq_num_cycles == old(self).seq_num_cycles
                &&& forall|pos: int| #[trigger]
                    bitmap::bit_at(final(self).packets@, pos) == (bitmap::bit_at(old(self).packets@, pos) || pos
                        % 8192 == seq as int % 8192)
            }),
            // Those that follow
            old(self).last_rtp_time_time is Some ==> ({
                let seq = pkt@.header.sequence_number;
                let last = old(self).last_seq_num;
                let newer = old(self).in_order(seq);
                &&& final(self).last_report_seq_num == old(self).last_report_seq_num
                &&& final(self).last_seq_num == if newer {
                    seq
                } else {
                    last
                }
                &&& final(self).seq_num_cycles == if newer && seq < last {
                    old(self).seq_num_cycles.wrapping_add(1)
                } else {
                    old(self).seq_num_cycles
                }
                &&& forall|pos: int| #[trigger]
                    bitmap::bit_at(final(self).packets@, pos) == ((bitmap::bit_at(old(self).packets@, pos) || pos
                        % 8192 == seq as int % 8192) && !(newer && bitmap::covers(
                        8192,
                        last.wrapping_add(1) as int,
                        seq.wrapping_sub(last) - 1,
                        pos,
                    )))
            }),
    {
        let seq: u16 = pkt.header.sequence_number;
        self.set_received(seq);
        if self.last_rtp_time_time.is_some() {
            // following frames
            let diff: u16 = seq.wrapping_sub(self.last_seq_num);
            if diff > 0 && diff < UINT16_SIZE_HALF {
                // wrap around detection: sequence number wrapped if new seq < old seq
                if seq < self.last_seq_num {
                    self.seq_num_cycles = self.seq_num_cycles.wrapping_add(1);
                }
                // Set the skipped packets as not received
                bitmap::clear(
                    self.packets.as_mut_slice(),
                    self.last_seq_num.wrapping_add(1) as usize,
                    (diff - 1) as usize,
                );
                self.last_seq_num = seq;
            }
        } else {
            // first frame
            self.last_seq_num = seq;
            self.last_report_seq_num = seq.wrapping_sub(1);
        }
        self.last_rtp_time_rtp = pkt.header.timestamp;
        self.last_rtp_time_time = Some(now);
    }

    /// Take note of a sender report that arrived at `now`.
    pub fn process_sender_report(&mut self, now: Instant, sr: &SenderReport)
        ensures
            *final(self) == (ReceiverStream {
                last_sender_report: ((sr.ntp_time as int / 65536) % 0x1_0000_0000) as u32,
                last_sender_report_time: Some(now),
                ..*old(self)
            }),
    {
        let ntp: u64 = sr.ntp_time;
        let middle: u64 = (ntp >> 16) & 0xffff_ffff;
        assert(middle == (ntp / 65536) % 0x1_0000_0000 && middle <= 0xffff_ffff) by (bit_vector)
            requires
                middle == (ntp >> 16) & 0xffff_ffff,
        ;
        self.last_sender_report = middle as u32;
        self.last_sender_report_time = Some(now);
    }

    /// The report on this stream as of `now`, with the jitter estimate handed in.
    ///
    /// Losses are counted from the packet after the last report up to, but not including, the
    /// newest one. More packets than the bitmap holds re-read it cyclically, counting each clear
    /// bit once per pass, as a per-packet walk would.
    pub fn generate_report(&mut self, now: Instant, jitter: u32) -> (report: ReceiverReport)
        requires
            old(self).wf(),
        ensures
            final(self).wf(),
            report.ssrc == old(self).receiver_ssrc,
            report.reports@ == seq![old(self).reception(now, jitter)],
            *final(self) == (ReceiverStream {
                total_lost: old(self).reception(now, jitter).total_lost,
                last_report_seq_num: old(self).last_seq_num,
                ..*old(self)
            }),
    {
        let total_since_report: u16 = self.last_seq_num.wrapping_sub(self.last_report_seq_num);
        let lost_since_report: u32 = if total_since_report == 0 {
            0
        } else {
            let start: usize = self.last_report_seq_num.wrapping_add(1) as usize;
            let len: usize = (total_since_report - 1) as usize;
            proof {
                bitmap::lemma_zero_offsets_grow(self.packets@, start as int, 0, len as nat);
            }
            bitmap::count_zeros(self.packets.as_slice(), start, len)
        };
        proof {
            bitmap::lemma_zero_offsets_grow(
                self.packets@,
                self.last_report_seq_num.wrapping_add(1) as int,
                0,
                (if total_since_report == 0 {
                    0
                } else {
                    total_since_report - 1
                }) as nat,
            );
            assert(lost_since_report <= total_since_report);
        }
        // allow up to 24 bits
        let total_lost: u32 = self.total_lost + lost_since_report;
        self.total_lost = if total_lost > MAX_LOST { MAX_LOST } else { total_lost };
        // Delay since the last sender report; 0 if none has been received yet
        let delay: u32 = match self.last_sender_report_time {
            Some(sr_time) => {
                let nanos: u64 = now.saturating_sub(sr_time);
                let units: u128 = nanos as u128 * 65536 / SECOND as u128;
                if units > u32::MAX as u128 {
                    u32::MAX
                } else {
                    units as u32
                }
            },
            None => 0,
        };
        let fraction_lost: u8 = if total_since_report > 0 {
            proof {
                lemma_fraction(lost_since_report as int, total_since_report as int);
            }
            (lost_since_report * 256 / total_since_report as u32) as u8
        } else {
            0
        };
        let cycles: u32 = self.seq_num_cycles as u32;
        let last: u32 = self.last_seq_num as u32;
        let extended: u32 = cycles << 16 | last;
        assert(extended == cycles * 65536 + last) by (bit_vector)
            requires
                extended == cycles << 16 | last,
                cycles <= 0xffff,
                last <= 0xffff,
        ;
        let mut reports: Vec<ReceptionReport> = Vec::new();
        reports.push(
            ReceptionReport {
                ssrc: self.ssrc,
                fraction_lost,
                total_lost: self.total_lost,
                last_sequence_number: extended,
                jitter,
                last_sender_report: self.last_sender_report,
                delay,
            },
        );
        self.last_report_seq_num = self.last_seq_num;
        assert(reports@ =~= seq![old(self).reception(now, jitter)]);
        ReceiverReport { ssrc: self.receiver_ssrc, reports }
    }

    /// What a report made at `now` says about this stream.
    pub open spec fn reception(&self, now: Instant, jitter: u32) -> ReceptionReport {
        let total = self.last_seq_num.wrapping_sub(self.last_report_seq_num);
        let lost = lost_between(self.packets@, self.last_report_seq_num, self.last_seq_num);
        ReceptionReport {
            ssrc: self.ssrc,
            fraction_lost: if total == 0 {
                0
            } else {
                (lost as int * 256 / total as int) as u8
            },
            total_lost: (if self.total_lost + lost > MAX_LOST {
                MAX_LOST as int
            } else {
                self.total_lost + lost
            }) as u32,
            last_sequence_number: (self.seq_num_cycles * 65536 + self.last_seq_num) as u32,
            jitter,
            last_sender_report: self.last_sender_report,
            delay: (match self.last_sender_report_time {
                Some(sr_time) => delay_units(time::since(now, sr_time) as int),
                None => 0,
            }) as u32,
        }
    }
}

/// Fewer than all packets lost make a fraction of fewer than 256 parts.
proof fn lemma_fraction(lost: int, total: int)
    by (nonlinear_arith)
    requires
        0 <= lost < total,
    ensures
        0 <= lost * 256 / total < 256,
{
}

/// A report right after another one reports no further loss.
pub proof fn law_nothing_lost_between_reports(stream: ReceiverStream, now: Instant, jitter: u32)
    requires
        stream.wf(),
        stream.last_seq_num == stream.last_report_seq_num,
    ensures
        stream.reception(now, jitter).fraction_lost == 0,
        stream.reception(now, jitter).total_lost == stream.total_lost,
{
}

/// The number of packets lost never goes down from one report to the next, and never exceeds what
/// 24 bits hold.
pub proof fn law_total_lost_accumulates(stream: ReceiverStream, now: Instant, jitter: u32)
    requires
        stream.wf(),
    ensures
        stream.total_lost <= stream.reception(now, jitter).total_lost <= MAX_LOST,
{
}

/// How many of the `n` packets from number `first` on were not received.
pub open spec fn not_received(stream: ReceiverStream, first: u16, n: int) -> int
    decreases n,
{
    if n <= 0 {
        0
    } else {
        not_received(stream, first, n - 1) + if stream.received(
            first.wrapping_add((n - 1) as u16),
        ) {
            0int
        } else {
            1
        }
    }
}

/// A report says what was lost since the last one: how many of the packets after the newest one of
/// the last report, and before the newest one now, were not received. That is added to the total, up
/// to what 24 bits hold, and put in relation to all packets since, in 256ths. The newest number is
/// given with the rounds that the numbers have gone.
pub proof fn law_report_says_what_was_lost(stream: ReceiverStream, now: Instant, jitter: u32)
    requires
        stream.wf(),
    ensures
        ({
            let report = stream.reception(now, jitter);
            let total = (stream.last_seq_num - stream.last_report_seq_num) % 65536;
            let lost = not_received(
                stream,
                stream.last_report_seq_num.wrapping_add(1),
                total - 1,
            );
            &&& report.ssrc == stream.ssrc
            &&& stream.total_lost + lost <= 0xff_ffff ==> report.total_lost == stream.total_lost
                + lost
            &&& stream.total_lost + lost > 0xff_ffff ==> report.total_lost == 0xff_ffff
            &&& total == 0 ==> report.fraction_lost == 0
            &&& total > 0 ==> report.fraction_lost == lost * 256 / total
            &&& report.last_sequence_number % 65536 == stream.last_seq_num
            &&& report.last_sequence_number / 65536 == stream.seq_num_cycles
            &&& report.jitter == jitter
            &&& report.last_sender_report == stream.last_sender_report
        }),
{
    let total = stream.last_seq_num.wrapping_sub(stream.last_report_seq_num);
    if stream.last_seq_num >= stream.last_report_seq_num {
        assert((stream.last_seq_num - stream.last_report_seq_num) % 65536 == total);
    } else {
        assert((stream.last_seq_num - stream.last_report_seq_num) % 65536 == total);
    }
    if total > 0 {
        let first = stream.last_report_seq_num.wrapping_add(1);
        lemma_not_received(stream, first, total - 1);
        lemma_fraction(not_received(stream, first, total - 1), total as int);
    }
}

proof fn lemma_not_received(stream: ReceiverStream, first: u16, n: int)
    requires
        stream.wf(),
        0 <= n < 65536,
    ensures
        not_received(stream, first, n) == bitmap::zero_offsets(
            stream.packets@,
            first as int,
            n as nat,
        ).len(),
        0 <= not_received(stream, first, n) <= n,
    decreases n,
{
    if n > 0 {
        lemma_not_received(stream, first, n - 1);
        let seq = first.wrapping_add((n - 1) as u16);
        assert(bitmap::capacity(stream.packets@) == 8192);
        assert((first + n - 1) % 8192 == seq as int % 8192);
    }
}

/// The delay since the last sender report is in 65536ths of a second, rounded down, up to what 32
/// bits hold, and 0 where there was none or the clock has gone back.
pub proof fn law_report_says_the_delay(stream: ReceiverStream, now: Instant, jitter: u32)
    ensures
        ({
            let delay = stream.reception(now, jitter).delay;
            &&& stream.last_sender_report_time is None ==> delay == 0
            &&& stream.last_sender_report_time matches Some(then) ==> {
                &&& now <= then ==> delay == 0
                &&& now > then && delay < u32::MAX ==> delay * 1_000_000_000 <= (now - then) * 65536
                    < (delay + 1) * 1_000_000_000
                &&& now > then && delay == u32::MAX ==> delay * 1_000_000_000 <= (now - then)
                    * 65536
            }
        }),
{
    match stream.last_sender_report_time {
        Some(then) => {
            let nanos = time::since(now, then) as int;
            let units = nanos * 65536 / 1_000_000_000;
            assert(units * 1_000_000_000 <= nanos * 65536 < (units + 1) * 1_000_000_000);
        },
        None => {},
    }
}

} // verus!
