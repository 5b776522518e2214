//! The arrival time map, and the same map kept slot by slot.

use rtc_core::arrival_time_map::{
    first_after, PacketArrivalTimeMap, MAX_NUMBER_OF_PACKETS, MIN_CAPACITY,
};

#[test]
fn test_first_after_matches_position() {
    for threshold in [-1, 0, 499_999, i64::MIN, i64::MAX - 1] {
        for len in 0..=27 {
            for hit in 0..=len {
                for above in [threshold.saturating_add(1), i64::MAX] {
                    if above <= threshold {
                        continue;
                    }
                    let mut values: Vec<i64> = (0..len)
                        .map(|i| if i % 3 == 0 { threshold } else { i64::MIN })
                        .collect();
                    if hit < len {
                        values[hit] = above;
                        for later in values.iter_mut().skip(hit + 1).step_by(2) {
                            *later = above;
                        }
                    }
                    let expected = values.iter().position(|&value| value > threshold);
                    assert_eq!(
                        first_after(&values, threshold),
                        expected,
                        "{values:?} > {threshold}"
                    );
                }
            }
        }
    }
}

#[test]
fn test_arrival_time_map_basic() {
    let mut map = PacketArrivalTimeMap::new();

    map.add_packet(0, 1000);
    assert!(map.has_received(0));
    assert!(!map.has_received(1));
    assert_eq!(map.begin_sequence_number(), 0);
    assert_eq!(map.end_sequence_number(), 1);
}

#[test]
fn test_arrival_time_map_sequential() {
    let mut map = PacketArrivalTimeMap::new();

    for i in 0..10 {
        map.add_packet(i, i * 1000);
    }

    for i in 0..10 {
        assert!(map.has_received(i));
    }
    assert_eq!(map.begin_sequence_number(), 0);
    assert_eq!(map.end_sequence_number(), 10);
}

#[test]
fn test_arrival_time_map_with_gaps() {
    let mut map = PacketArrivalTimeMap::new();

    map.add_packet(0, 1000);
    map.add_packet(5, 5000);

    assert!(map.has_received(0));
    assert!(!map.has_received(1));
    assert!(!map.has_received(2));
    assert!(!map.has_received(3));
    assert!(!map.has_received(4));
    assert!(map.has_received(5));
}

#[test]
fn test_arrival_time_map_find_next() {
    let mut map = PacketArrivalTimeMap::new();

    map.add_packet(0, 1000);
    map.add_packet(5, 5000);
    map.add_packet(10, 10000);

    assert_eq!(map.find_next_at_or_after(0), Some((0, 1000)));
    assert_eq!(map.find_next_at_or_after(1), Some((5, 5000)));
    assert_eq!(map.find_next_at_or_after(5), Some((5, 5000)));
    assert_eq!(map.find_next_at_or_after(6), Some((10, 10000)));
    assert_eq!(map.find_next_at_or_after(11), None);
}

#[test]
fn test_arrival_time_map_out_of_order() {
    let mut map = PacketArrivalTimeMap::new();

    map.add_packet(5, 5000);
    map.add_packet(3, 3000);
    map.add_packet(7, 7000);

    assert!(map.has_received(3));
    assert!(!map.has_received(4));
    assert!(map.has_received(5));
    assert!(!map.has_received(6));
    assert!(map.has_received(7));
}

#[test]
fn test_arrival_time_map_remove_old() {
    let mut map = PacketArrivalTimeMap::new();

    for i in 0..10 {
        map.add_packet(i, i * 1000);
    }

    map.remove_old_packets(7, 5000);

    assert!(!map.has_received(0));
    assert!(!map.has_received(5));
    assert!(map.has_received(6));
    assert!(map.has_received(9));
}

#[test]
fn test_arrival_time_map_clamp() {
    let mut map = PacketArrivalTimeMap::new();

    map.add_packet(5, 5000);
    map.add_packet(10, 10000);

    assert_eq!(map.clamp(0), 5);
    assert_eq!(map.clamp(7), 7);
    assert_eq!(map.clamp(100), 11);
}

struct SlotMap {
    arrival_times: Vec<i64>,
    begin_sequence_number: i64,
    end_sequence_number: i64,
}

impl SlotMap {
    fn new() -> Self {
        Self {
            arrival_times: Vec::new(),
            begin_sequence_number: 0,
            end_sequence_number: 0,
        }
    }

    fn add_packet(&mut self, sequence_number: i64, arrival_time: i64) {
        if self.arrival_times.is_empty() {
            self.reallocate(MIN_CAPACITY);
            self.begin_sequence_number = sequence_number;
            self.end_sequence_number = sequence_number + 1;
            let idx = self.index(sequence_number);
            self.arrival_times[idx] = arrival_time;
            return;
        }

        if sequence_number >= self.begin_sequence_number
            && sequence_number < self.end_sequence_number
        {
            let idx = self.index(sequence_number);
            self.arrival_times[idx] = arrival_time;
            return;
        }

        if sequence_number < self.begin_sequence_number {
            let new_size = (self.end_sequence_number - sequence_number) as usize;
            if new_size > MAX_NUMBER_OF_PACKETS as usize {
                return;
            }
            self.adjust_to_size(new_size);
            let idx = self.index(sequence_number);
            self.arrival_times[idx] = arrival_time;
            let begin = self.begin_sequence_number;
            self.set_not_received(sequence_number + 1, begin);
            self.begin_sequence_number = sequence_number;
            return;
        }

        let new_end_sequence_number = sequence_number + 1;

        if new_end_sequence_number >= self.end_sequence_number + MAX_NUMBER_OF_PACKETS {
            self.begin_sequence_number = sequence_number;
            self.end_sequence_number = new_end_sequence_number;
            let idx = self.index(sequence_number);
            self.arrival_times[idx] = arrival_time;
            return;
        }

        if self.begin_sequence_number < new_end_sequence_number - MAX_NUMBER_OF_PACKETS {
            self.begin_sequence_number = new_end_sequence_number - MAX_NUMBER_OF_PACKETS;
        }

        self.adjust_to_size((new_end_sequence_number - self.begin_sequence_number) as usize);

        let end = self.end_sequence_number;
        self.set_not_received(end, sequence_number);
        self.end_sequence_number = new_end_sequence_number;
        let idx = self.index(sequence_number);
        self.arrival_times[idx] = arrival_time;
    }

    fn set_not_received(&mut self, start_inclusive: i64, end_exclusive: i64) {
        for sn in start_inclusive..end_exclusive {
            let idx = self.index(sn);
            self.arrival_times[idx] = -1;
        }
    }

    fn find_next_at_or_after(&self, sequence_number: i64) -> Option<(i64, i64)> {
        let mut seq = self.clamp(sequence_number);
        while seq < self.end_sequence_number {
            let arrival_time = self.get(seq);
            if arrival_time >= 0 {
                return Some((seq, arrival_time));
            }
            seq += 1;
        }
        None
    }

    fn erase_to(&mut self, sequence_number: i64) {
        if sequence_number < self.begin_sequence_number {
            return;
        }
        if sequence_number >= self.end_sequence_number {
            self.begin_sequence_number = self.end_sequence_number;
            return;
        }
        self.begin_sequence_number = sequence_number;
        self.adjust_to_size((self.end_sequence_number - self.begin_sequence_number) as usize);
    }

    fn remove_old_packets(&mut self, sequence_number: i64, arrival_time_limit: i64) {
        let check_to = sequence_number.min(self.end_sequence_number);
        while self.begin_sequence_number < check_to
            && self.get(self.begin_sequence_number) <= arrival_time_limit
        {
            self.begin_sequence_number += 1;
        }
        self.adjust_to_size((self.end_sequence_number - self.begin_sequence_number) as usize);
    }

    fn has_received(&self, sequence_number: i64) -> bool {
        self.get(sequence_number) >= 0
    }

    fn clamp(&self, sequence_number: i64) -> i64 {
        sequence_number.clamp(self.begin_sequence_number, self.end_sequence_number)
    }

    fn get(&self, sequence_number: i64) -> i64 {
        if sequence_number < self.begin_sequence_number
            || sequence_number >= self.end_sequence_number
        {
            return -1;
        }
        self.arrival_times[self.index(sequence_number)]
    }

    fn index(&self, sequence_number: i64) -> usize {
        (sequence_number & (self.capacity() as i64 - 1)) as usize
    }

    fn adjust_to_size(&mut self, new_size: usize) {
        if new_size > self.capacity() {
            let mut new_capacity = self.capacity();
            while new_capacity < new_size {
                new_capacity *= 2;
            }
            self.reallocate(new_capacity);
        }
        if self.capacity() > MIN_CAPACITY.max(new_size * 4) {
            let mut new_capacity = self.capacity();
            while new_capacity >= 2 * new_size.max(MIN_CAPACITY) {
                new_capacity /= 2;
            }
            self.reallocate(new_capacity);
        }
    }

    fn capacity(&self) -> usize {
        self.arrival_times.len()
    }

    fn reallocate(&mut self, new_capacity: usize) {
        let mut new_buffer = vec![-1i64; new_capacity];
        for sn in self.begin_sequence_number..self.end_sequence_number {
            let old_val = self.get(sn);
            new_buffer[(sn & (new_capacity as i64 - 1)) as usize] = old_val;
        }
        self.arrival_times = new_buffer;
    }
}

struct XorShift(u64);

impl XorShift {
    fn next(&mut self) -> u64 {
        self.0 ^= self.0 << 13;
        self.0 ^= self.0 >> 7;
        self.0 ^= self.0 << 17;
        self.0
    }

    fn below(&mut self, n: u64) -> i64 {
        (self.next() % n) as i64
    }
}

fn assert_same(map: &PacketArrivalTimeMap, reference: &SlotMap, context: &str) {
    assert_eq!(
        map.begin_sequence_number, reference.begin_sequence_number,
        "begin, {context}"
    );
    assert_eq!(
        map.end_sequence_number, reference.end_sequence_number,
        "end, {context}"
    );
    assert_eq!(
        map.arrival_times, reference.arrival_times,
        "slots, {context}"
    );
}

#[test]
fn test_arrival_time_map_matches_reference() {
    let mut rng = XorShift(0x3c6e_f372_fe94_f82b);
    let (mut largest, mut shrunk, mut reset, mut refused, mut stopped_early) =
        (0, false, false, false, false);
    for run in 0..16 {
        let mut map = PacketArrivalTimeMap::new();
        let mut reference = SlotMap::new();
        let mut seq: i64 = match run % 3 {
            0 => 0,
            1 => -rng.below(1 << 20),
            _ => rng.below(1 << 40) - (1 << 39),
        };
        let mut time: i64 = rng.below(1 << 30);
        let max = MAX_NUMBER_OF_PACKETS;
        let steps = if run % 4 == 0 { 1_000 } else { 250 };
        for step in 0..steps {
            let begin = map.begin_sequence_number;
            let end = map.end_sequence_number;
            let capacity = map.capacity();
            let op = rng.below(100);
            let context = format!("run {run}, step {step}, op {op}, window {begin}..{end}");
            match op {
                0..=74 => {
                    seq = match rng.below(100) {
                        0..=49 => end,
                        50..=64 => end + 1 + rng.below(40),
                        65..=74 => end - 1 - rng.below(64),
                        75..=79 => begin - 1 - rng.below(300),
                        80..=87 => end + rng.below(max as u64 + 2),
                        88..=89 => end + max - 2 + rng.below(4),
                        90..=91 => begin - rng.below(max as u64 + 300),
                        92..=93 => end - max + rng.below(4),
                        _ => seq + rng.below(1 << 17) - (1 << 16),
                    };
                    time = match rng.below(10) {
                        0 => time - rng.below(100_000),
                        1 => -rng.below(3) - 2,
                        _ => time.max(0) + rng.below(40_000),
                    };
                    map.add_packet(seq, time);
                    reference.add_packet(seq, time);
                    reset |= end - begin > 1
                        && map.end_sequence_number - map.begin_sequence_number == 1;
                    refused |= seq < begin && map.begin_sequence_number == begin;
                }
                75..=86 => {
                    let sequence_number = match rng.below(4) {
                        0 => end + rng.below(10),
                        1 => begin + rng.below((end - begin + 1) as u64),
                        2 => begin - rng.below(10),
                        _ => end - rng.below(max as u64),
                    };
                    let limit = match rng.below(5) {
                        0 => -2,
                        1 => -1,
                        2 => i64::MAX,
                        _ => time - rng.below(500_000),
                    };
                    map.remove_old_packets(sequence_number, limit);
                    reference.remove_old_packets(sequence_number, limit);
                    stopped_early |= map.begin_sequence_number > begin
                        && map.begin_sequence_number < sequence_number.min(end);
                }
                87..=89 => {
                    let sequence_number = begin + rng.below((end - begin + 2) as u64) - 1;
                    map.erase_to(sequence_number);
                    reference.erase_to(sequence_number);
                }
                _ => {
                    for _ in 0..4 {
                        let query = begin + rng.below((end - begin + 20) as u64) - 10;
                        assert_eq!(
                            map.find_next_at_or_after(query),
                            reference.find_next_at_or_after(query),
                            "find_next_at_or_after({query}), {context}"
                        );
                        assert_eq!(
                            map.has_received(query),
                            reference.has_received(query),
                            "{context}"
                        );
                    }
                }
            }
            assert_same(&map, &reference, &context);
            let query = map.begin_sequence_number + rng.below(8);
            assert_eq!(
                map.find_next_at_or_after(query),
                reference.find_next_at_or_after(query),
                "find_next_at_or_after({query}), {context}"
            );
            shrunk |= map.capacity() < capacity;
            largest = largest.max(map.capacity());
        }
    }
    assert_eq!(
        largest, MAX_NUMBER_OF_PACKETS as usize,
        "never grew to the maximum"
    );
    assert!(shrunk, "never shrank");
    assert!(reset, "never jumped past the retained window");
    assert!(refused, "never refused a packet too far behind");
    assert!(
        stopped_early,
        "remove_old_packets never stopped at a newer packet"
    );
}

#[test]
fn test_arrival_time_map_kernels_match_reference_from_any_state() {
    let mut rng = XorShift(0xa54f_f53a_5f1d_36f1);
    let mut capacity = MIN_CAPACITY;
    while capacity <= MAX_NUMBER_OF_PACKETS as usize {
        for scenario in 0..24 {
            let slots: Vec<i64> = (0..capacity)
                .map(|_| match scenario % 3 {
                    0 => -1,
                    1 => rng.below(1_000_000),
                    _ => {
                        if rng.below(8) == 0 {
                            rng.below(1_000_000)
                        } else {
                            -1
                        }
                    }
                })
                .collect();
            let base = rng.below(1 << 24) - (1 << 23);
            let len = match scenario % 6 {
                0 => 0,
                1 => capacity as i64,
                2 => capacity as i64 - 1,
                _ => rng.below(capacity as u64 + 1),
            };
            let begin = base;
            let end = base + len;
            let mut map = PacketArrivalTimeMap::new();
            let mut reference = SlotMap::new();
            map.arrival_times = slots.clone();
            reference.arrival_times = slots;
            map.begin_sequence_number = begin;
            reference.begin_sequence_number = begin;
            map.end_sequence_number = end;
            reference.end_sequence_number = end;
            let context = format!("capacity {capacity}, window {begin}..{end}");

            for _ in 0..6 {
                let query = begin + rng.below(len as u64 + 4) - 2;
                assert_eq!(
                    map.find_next_at_or_after(query),
                    reference.find_next_at_or_after(query),
                    "find_next_at_or_after({query}), {context}"
                );
            }

            let start = begin + rng.below(len as u64 + 1);
            let gap = match scenario % 4 {
                0 => 0,
                1 => capacity as i64,
                _ => rng.below(capacity as u64 + 1),
            };
            map.set_not_received(start, start + gap);
            reference.set_not_received(start, start + gap);
            assert_same(&map, &reference, &format!("gap {start}+{gap}, {context}"));

            for new_capacity in [capacity / 2, capacity, capacity * 2, capacity * 4] {
                if new_capacity < len as usize {
                    continue;
                }
                let mut map_copy = PacketArrivalTimeMap {
                    arrival_times: map.arrival_times.clone(),
                    begin_sequence_number: begin,
                    end_sequence_number: end,
                };
                let mut reference_copy = SlotMap {
                    arrival_times: reference.arrival_times.clone(),
                    begin_sequence_number: begin,
                    end_sequence_number: end,
                };
                map_copy.reallocate(new_capacity);
                reference_copy.reallocate(new_capacity);
                assert_same(
                    &map_copy,
                    &reference_copy,
                    &format!("reallocate to {new_capacity}, {context}"),
                );
            }

            let limit = rng.below(1_000_000);
            let upto = begin + rng.below(len as u64 + 3);
            map.remove_old_packets(upto, limit);
            reference.remove_old_packets(upto, limit);
            assert_same(&map, &reference, &format!("remove to {upto}, {context}"));
        }
        capacity *= 2;
    }
}
