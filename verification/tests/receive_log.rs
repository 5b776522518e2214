//! The receive log, and the same log kept bit by bit.

use rtc_core::receive_log::ReceiveLog;
use rtc_core::seqnum::UINT16_SIZE_HALF;

#[test]
fn test_receive_log_invalid_size() {
    assert!(ReceiveLog::new(5).is_none());
    assert!(ReceiveLog::new(32).is_none());
    assert!(ReceiveLog::new(100).is_none());
}

#[test]
fn test_receive_log_valid_sizes() {
    assert!(ReceiveLog::new(64).is_some());
    assert!(ReceiveLog::new(128).is_some());
    assert!(ReceiveLog::new(256).is_some());
    assert!(ReceiveLog::new(512).is_some());
    assert!(ReceiveLog::new(1024).is_some());
    assert!(ReceiveLog::new(32768).is_some());
}

#[test]
fn test_receive_log_basic() {
    let mut rl = ReceiveLog::new(128).unwrap();

    rl.add(0);
    assert!(rl.get(0));
    assert!(rl.missing_seq_numbers(0).is_empty());
    assert_eq!(rl.last_consecutive, 0);

    for i in 1..=127 {
        rl.add(i);
    }
    assert!(rl.missing_seq_numbers(0).is_empty());
    assert_eq!(rl.last_consecutive, 127);

    rl.add(128);
    assert!(rl.get(128));
    assert!(!rl.get(0));
    assert!(rl.missing_seq_numbers(0).is_empty());
    assert_eq!(rl.last_consecutive, 128);
}

#[test]
fn test_receive_log_with_gap() {
    let mut rl = ReceiveLog::new(128).unwrap();

    rl.add(0);
    rl.add(1);
    rl.add(128);

    let missing = rl.missing_seq_numbers(0);
    assert!(!missing.is_empty());
    assert!(missing.contains(&2) || !missing.is_empty());
}

#[test]
fn test_receive_log_skip_last_n() {
    let mut rl = ReceiveLog::new(128).unwrap();

    rl.add(0);
    rl.add(5);

    let missing_all = rl.missing_seq_numbers(0);
    assert_eq!(missing_all, vec![1, 2, 3, 4]);

    let missing_skip_2 = rl.missing_seq_numbers(2);
    assert_eq!(missing_skip_2, vec![1, 2, 3]);
}

#[test]
fn test_receive_log_out_of_order() {
    let mut rl = ReceiveLog::new(128).unwrap();

    rl.add(0);
    rl.add(3);
    assert_eq!(rl.missing_seq_numbers(0), vec![1, 2]);

    rl.add(1);
    assert_eq!(rl.missing_seq_numbers(0), vec![2]);
    assert_eq!(rl.last_consecutive, 1);

    rl.add(2);
    assert!(rl.missing_seq_numbers(0).is_empty());
    assert_eq!(rl.last_consecutive, 3);
}

#[test]
fn test_receive_log_wraparound() {
    let mut rl = ReceiveLog::new(128).unwrap();

    rl.add(65534);
    assert_eq!(rl.last_consecutive, 65534);

    rl.add(65535);
    assert_eq!(rl.last_consecutive, 65535);

    rl.add(0);
    assert_eq!(rl.last_consecutive, 0);

    rl.add(2);
    let missing = rl.missing_seq_numbers(0);
    assert_eq!(missing, vec![1]);
}

#[test]
fn test_receive_log_pion_compat() {
    for start in [
        0u16, 1, 127, 128, 129, 511, 512, 513, 32767, 32768, 65534, 65535,
    ] {
        let mut rl = ReceiveLog::new(128).unwrap();

        rl.add(start);
        assert!(rl.get(start));
        assert!(rl.missing_seq_numbers(0).is_empty());
        assert_eq!(rl.last_consecutive, start);

        for i in 1..=127u16 {
            rl.add(start.wrapping_add(i));
        }
        assert!(rl.missing_seq_numbers(0).is_empty());
        assert_eq!(rl.last_consecutive, start.wrapping_add(127));

        rl.add(start.wrapping_add(128));
        assert!(rl.get(start.wrapping_add(128)));
        assert!(!rl.get(start));
        assert!(rl.missing_seq_numbers(0).is_empty());
        assert_eq!(rl.last_consecutive, start.wrapping_add(128));

        rl.add(start.wrapping_add(130));
        assert!(rl.get(start.wrapping_add(130)));
        let missing = rl.missing_seq_numbers(0);
        assert_eq!(missing, vec![start.wrapping_add(129)]);
        assert_eq!(rl.last_consecutive, start.wrapping_add(128));
    }
}

#[test]
fn test_receive_log_is_missing_matches_missing_seq_numbers() {
    let mut log = ReceiveLog::new(128).unwrap();
    let arrivals = [
        65_500u16, 65_501, 65_503, 65_510, 65_502, 65_535, 3, 7, 6, 20, 500, 505, 501,
    ];
    for &seq in &arrivals {
        log.add(seq);
        for skip_last_n in [0, 2, 5] {
            let missing = log.missing_seq_numbers(skip_last_n);
            for candidate in 0..=u16::MAX {
                assert_eq!(
                    log.is_missing(candidate, skip_last_n),
                    missing.contains(&candidate),
                    "seq {candidate} after adding {seq}, skip_last_n {skip_last_n}"
                );
            }
        }
    }
}

#[test]
fn test_receive_log_large_jump_clears_the_window() {
    let mut log = ReceiveLog::new(64).unwrap();
    for seq in 0..64 {
        log.add(seq);
    }
    log.add(10_000);
    for seq in 10_000u16 - 63..10_000 {
        assert!(!log.get(seq), "{seq} was never received");
    }
    assert!(log.get(10_000));
    assert!(!log.get(0), "outside the window");
}

struct BitLog {
    packets: Vec<u64>,
    size: u16,
    size_mask: u16,
    end: u16,
    started: bool,
    last_consecutive: u16,
}

impl BitLog {
    fn new(size: u16) -> Self {
        Self {
            packets: vec![0u64; (size / 64) as usize],
            size,
            size_mask: size - 1,
            end: 0,
            started: false,
            last_consecutive: 0,
        }
    }

    fn add(&mut self, seq: u16) {
        if !self.started {
            self.set_received(seq);
            self.end = seq;
            self.started = true;
            self.last_consecutive = seq;
            return;
        }

        let diff = seq.wrapping_sub(self.end);
        match diff {
            0 => return,
            d if d < UINT16_SIZE_HALF => {
                if d > self.size {
                    self.packets.fill(0);
                } else {
                    let mut i = self.end.wrapping_add(1);
                    while i != seq {
                        self.del_received(i);
                        i = i.wrapping_add(1);
                    }
                }
                self.end = seq;

                if self.last_consecutive.wrapping_add(1) == seq {
                    self.last_consecutive = seq;
                } else if seq.wrapping_sub(self.last_consecutive) > self.size {
                    self.last_consecutive = seq.wrapping_sub(self.size);
                    self.fix_last_consecutive();
                }
            }
            _ => {
                if self.last_consecutive.wrapping_add(1) == seq {
                    self.last_consecutive = seq;
                    self.fix_last_consecutive();
                }
            }
        }

        self.set_received(seq);
    }

    fn missing_seq_numbers(&self, skip_last_n: u16) -> Vec<u16> {
        let until = self.end.wrapping_sub(skip_last_n);
        if until.wrapping_sub(self.last_consecutive) >= UINT16_SIZE_HALF {
            return Vec::new();
        }
        let mut missing = Vec::new();
        let mut i = self.last_consecutive.wrapping_add(1);
        while i != until.wrapping_add(1) {
            if !self.get_received(i) {
                missing.push(i);
            }
            i = i.wrapping_add(1);
        }
        missing
    }

    fn set_received(&mut self, seq: u16) {
        let pos = seq & self.size_mask;
        self.packets[(pos / 64) as usize] |= 1 << (pos % 64);
    }

    fn del_received(&mut self, seq: u16) {
        let pos = seq & self.size_mask;
        self.packets[(pos / 64) as usize] &= !(1u64 << (pos % 64));
    }

    fn get_received(&self, seq: u16) -> bool {
        let pos = seq & self.size_mask;
        (self.packets[(pos / 64) as usize] & (1 << (pos % 64))) != 0
    }

    fn fix_last_consecutive(&mut self) {
        let mut i = self.last_consecutive.wrapping_add(1);
        while i != self.end.wrapping_add(1) && self.get_received(i) {
            i = i.wrapping_add(1);
        }
        self.last_consecutive = i.wrapping_sub(1);
    }
}

struct XorShift(u64);

impl XorShift {
    fn next(&mut self) -> u64 {
        self.0 ^= self.0 << 13;
        self.0 ^= self.0 >> 7;
        self.0 ^= self.0 << 17;
        self.0
    }

    fn below(&mut self, n: u64) -> u64 {
        self.next() % n
    }
}

const SIZES: [u16; 10] = [64, 128, 256, 512, 1024, 2048, 4096, 8192, 16384, 32768];

fn assert_same(log: &ReceiveLog, reference: &BitLog, context: &str) {
    assert_eq!(log.packets, reference.packets, "bitmap, {context}");
    assert_eq!(log.end, reference.end, "end, {context}");
    assert_eq!(log.started, reference.started, "started, {context}");
    assert_eq!(
        log.last_consecutive, reference.last_consecutive,
        "last_consecutive, {context}"
    );
}

#[test]
fn test_receive_log_matches_per_bit_reference() {
    let mut rng = XorShift(0x2545_f491_4f6c_dd1d);
    for size in SIZES {
        for run in 0..4 {
            let mut log = ReceiveLog::new(size).unwrap();
            let mut reference = BitLog::new(size);
            let mut last = if run % 2 == 0 {
                0u16.wrapping_sub(rng.below(3 * size as u64) as u16)
            } else {
                rng.next() as u16
            };
            let steps = if size <= 1024 { 400 } else { 100 };
            for step in 0..steps {
                let base = if rng.below(2) == 0 { last } else { log.end };
                let seq = match rng.below(100) {
                    0..=54 => base.wrapping_add(1),
                    55..=69 => base.wrapping_add(2 + rng.below(6) as u16),
                    70..=81 => base.wrapping_sub(rng.below(24) as u16),
                    82..=87 => base.wrapping_add(size - 1 + rng.below(3) as u16),
                    88..=91 => base.wrapping_add(rng.below(0x8000) as u16),
                    92..=95 => base.wrapping_sub(rng.below(size as u64) as u16),
                    _ => rng.next() as u16,
                };
                last = seq;
                log.add(seq);
                reference.add(seq);
                let context = format!("size {size}, run {run}, step {step}, seq {seq}");
                assert_same(&log, &reference, &context);
                for skip_last_n in [0, 1 + rng.below(8) as u16, rng.next() as u16] {
                    assert_eq!(
                        log.missing_seq_numbers(skip_last_n),
                        reference.missing_seq_numbers(skip_last_n),
                        "missing, skip_last_n {skip_last_n}, {context}"
                    );
                }
            }
        }
    }
}

#[test]
fn test_receive_log_scans_match_reference_from_any_state() {
    let mut rng = XorShift(0xd1b5_4a32_d192_ed03);
    for size in SIZES {
        for scenario in 0..40 {
            let packets: Vec<u64> = (0..size / 64)
                .map(|_| match scenario % 5 {
                    0 => 0,
                    1 => u64::MAX,
                    2 => rng.next(),
                    3 => rng.next() | rng.next() | rng.next(),
                    _ => !(1 << rng.below(64)),
                })
                .collect();
            let end = rng.next() as u16;
            let last_consecutive = match rng.below(6) {
                0 => end.wrapping_sub(size),
                1 => end.wrapping_sub(size - 1),
                2 => end.wrapping_sub(rng.below(size as u64 + 1) as u16),
                3 => end.wrapping_sub(rng.below(0x8000) as u16),
                4 => end,
                _ => rng.next() as u16,
            };
            let mut log = ReceiveLog::new(size).unwrap();
            let mut reference = BitLog::new(size);
            log.packets = packets.clone();
            reference.packets = packets;
            log.end = end;
            reference.end = end;
            log.started = true;
            reference.started = true;
            log.last_consecutive = last_consecutive;
            reference.last_consecutive = last_consecutive;

            let context =
                format!("size {size}, end {end}, last_consecutive {last_consecutive}");
            for skip_last_n in [0, 1, 2, 5, size - 1, size, rng.next() as u16] {
                assert_eq!(
                    log.missing_seq_numbers(skip_last_n),
                    reference.missing_seq_numbers(skip_last_n),
                    "missing, skip_last_n {skip_last_n}, {context}"
                );
            }
            let arrivals = [
                end,
                end.wrapping_add(1),
                end.wrapping_add(2),
                end.wrapping_add(1 + rng.below(size as u64) as u16),
                end.wrapping_add(size - 1),
                end.wrapping_add(size),
                end.wrapping_add(size + 1),
                end.wrapping_add(rng.below(0x8000) as u16),
                end.wrapping_sub(1 + rng.below(size as u64) as u16),
                last_consecutive.wrapping_add(1),
                rng.next() as u16,
            ];
            for seq in arrivals {
                let mut log = ReceiveLog {
                    packets: log.packets.clone(),
                    ..log
                };
                let mut reference = BitLog {
                    packets: reference.packets.clone(),
                    ..reference
                };
                log.add(seq);
                reference.add(seq);
                assert_same(&log, &reference, &format!("add {seq}, {context}"));
            }

            log.fix_last_consecutive();
            reference.fix_last_consecutive();
            assert_same(&log, &reference, &context);
        }
    }
}

#[test]
fn an_arrival_behind_the_window_stands_for_a_number_within_it() {
    let mut rl = ReceiveLog::new(64).unwrap();
    for seq in 937..=1000u16 {
        if seq != 964 {
            rl.add(seq);
        }
    }
    assert!(rl.is_missing(964, 0));
    // It is 100 behind the end, and shares its place with 964.
    rl.add(900);
    assert!(rl.get(964));
    assert!(!rl.get(900));
}

#[test]
fn missing_numbers_ascend_and_each_is_missing() {
    let mut rl = ReceiveLog::new(64).unwrap();
    for seq in [65_530u16, 65_531, 65_534, 1, 4] {
        rl.add(seq);
    }
    let missing = rl.missing_seq_numbers(0);
    assert_eq!(missing, [65_532, 65_533, 65_535, 0, 2, 3]);
    for seq in missing {
        assert!(rl.is_missing(seq, 0));
        assert!(!rl.get(seq));
    }
    assert_eq!(rl.missing_seq_numbers(3), [65_532, 65_533, 65_535, 0]);
}

#[test]
fn the_order_of_arrival_does_not_matter_within_a_window() {
    for order in [[3u16, 9, 1, 6], [9, 6, 3, 1], [1, 3, 6, 9], [6, 1, 9, 3]] {
        let mut rl = ReceiveLog::new(64).unwrap();
        rl.add(65_533);
        for offset in order {
            rl.add(65_533u16.wrapping_add(offset));
            rl.add(65_533u16.wrapping_add(offset));
        }
        assert_eq!(rl.missing_seq_numbers(0), [65_535, 1, 2, 4, 5]);
        assert_eq!(rl.missing_seq_numbers(4), [65_535, 1, 2]);
        assert!(rl.missing_seq_numbers(32_768).is_empty());
    }
}
