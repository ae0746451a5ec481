//! The protocol-agnostic parts.

use vip::axi4::beat_addr;
use vip::axi4::burst::{beat_in_range, FIXED, INCR, WRAP};
use vip::axi4::generate::clip;
use vip::axi4::ops::count_twos;
use vip::common::channel::{Channel, Unstable};
use vip::common::lanes::{align, bytes_for, merge_lanes};
use vip::common::latency::Latency;
use vip::common::memory::Memory;
use vip::common::random::{next_rand, seed_lfsr, seed_traffic, stall_now};
use vip::common::report::fail_at;
use vip::common::resp::{DECERR, OKAY, SLVERR};
use vip::common::stimulus::{full_strb, rand_data, rand_strobe};
use vip::common::traffic::Traffic;
use vip::common::words::{
    arg_words, data_value, fold_words, high, is_set, mask_words, number, words_for,
};
use vip::value::Value;

fn bits(words: Vec<u64>, mask_xz: Vec<u64>, width: u32) -> Value {
    Value::Bits {
        words,
        mask_xz,
        width,
    }
}

#[test]
fn signals_are_set_and_definitely_high() {
    let (zero, one) = (bits(vec![0], vec![0], 1), bits(vec![1], vec![0], 1));
    let (x, z) = (bits(vec![0], vec![1], 1), bits(vec![1], vec![1], 1));
    assert_eq!([&zero, &one, &x, &z].map(is_set), [false, true, false, true]);
    assert_eq!([&zero, &one, &x, &z].map(high), [false, true, false, false]);
    assert!(is_set(&bits(vec![0, 2], vec![0, 0], 66)));
    assert!(!is_set(&Value::Str("1".to_string())));
}

#[test]
fn numbers_are_read_from_at_most_64_bits() {
    assert_eq!(number(&bits(vec![0xabc], vec![0], 12)), 0xabc);
    assert_eq!(number(&bits(vec![0xabc, 1], vec![0, 0], 65)), 0);
    assert_eq!(number(&Value::Unit), 0);
}

#[test]
fn data_is_cut_to_its_width() {
    assert_eq!(
        data_value(&vec![0x1ff, 7], 8),
        bits(vec![0xff], vec![0], 8)
    );
    assert_eq!(
        data_value(&vec![5], 100),
        bits(vec![5, 0], vec![0, 0], 100)
    );
    let v = data_value(&vec![u64::MAX, u64::MAX], 96);
    assert_eq!(arg_words(&v, 96, "data").unwrap(), vec![u64::MAX, 0xffff_ffff]);
}

#[test]
fn word_vectors_span_their_width() {
    assert_eq!([0, 1, 64, 65, 128, 129].map(words_for), [1, 1, 1, 2, 2, 3]);
    let mut w = vec![u64::MAX, u64::MAX];
    mask_words(&mut w, 70);
    assert_eq!(w, vec![u64::MAX, 0x3f]);
    mask_words(&mut w, 128);
    assert_eq!(w, vec![u64::MAX, 0x3f]);
}

#[test]
fn folded_words_keep_every_lane() {
    assert_eq!(fold_words(&bits(vec![1, 0, 8], vec![0, 0, 0], 192)), 9);
    assert_eq!(fold_words(&Value::Unit), 0);
}

#[test]
fn random_sequence_is_fixed() {
    let mut x = seed_lfsr(0);
    assert_eq!(x, 1);
    let seen: Vec<u64> = (0..4).map(|_| next_rand(&mut x)).collect();
    assert_eq!(
        seen,
        vec![
            0x4082_2041,
            0x1000_4106_0c01_1441,
            0x9b1e_842f_6e86_2629,
            0xf554_f503_555d_8025
        ]
    );
    assert_eq!(seed_traffic(0x0123_4567_89ab_cdef), 0x89ab_cdef_0123_4567);
    assert_eq!(seed_traffic(0), 1);
}

#[test]
fn stall_weights_go_from_never_to_always() {
    let mut x = 1;
    assert!(!stall_now(&mut x, None));
    assert_eq!(x, 1);
    for _ in 0..100 {
        assert!(!stall_now(&mut x, Some(0)));
        assert!(stall_now(&mut x, Some(256)));
    }
    // The first draw from 1 is 0x40822041, whose low byte is 0x41.
    assert!(!stall_now(&mut 1, Some(0x41)));
    assert!(stall_now(&mut 1, Some(0x42)));
}

#[test]
fn random_data_and_strobes_are_drawn_word_by_word() {
    let mut x = 1;
    assert_eq!(rand_data(&mut x, 40), vec![0x4082_2041]);
    assert_eq!(x, 0x4082_2041);
    let mut x = 1;
    assert_eq!(
        rand_data(&mut x, 72),
        vec![0x4082_2041, 0x41]
    );
    // The low bits of the first four draws are all set.
    let mut x = 1;
    assert_eq!(rand_strobe(&mut x, 32), vec![0xf]);
    assert_eq!(x, 0xf554_f503_555d_8025);
}

#[test]
fn full_strobes_cover_every_lane() {
    assert_eq!(full_strb(8), vec![1]);
    assert_eq!(full_strb(32), vec![0xf]);
    assert_eq!(full_strb(512), vec![u64::MAX]);
    assert_eq!(full_strb(1024), vec![u64::MAX, u64::MAX]);
    assert_eq!([1, 8, 12, 32, 1024].map(bytes_for), [1, 1, 1, 4, 128]);
}

#[test]
fn strobed_lanes_are_merged() {
    let mut w = vec![0x1111_1111_1111_1111, 0x2222_2222_2222_2222];
    let data = vec![0xaaaa_aaaa_aaaa_aaaa, 0xbbbb_bbbb_bbbb_bbbb];
    merge_lanes(&mut w, &data, &vec![0b1_0000_0010], 16);
    assert_eq!(w, vec![0x1111_1111_1111_aa11, 0x2222_2222_2222_22bb]);
    merge_lanes(&mut w, &data, &vec![u64::MAX], 2);
    assert_eq!(w[0], 0x1111_1111_1111_aaaa);
    assert_eq!(align(0x1237, 8), 0x1230);
}

#[test]
fn latency_summarises_a_series() {
    let mut l = Latency::new();
    assert_eq!((l.min, l.avg(), l.max), (0, 0, 0));
    for v in [7, 3, 9, 4] {
        l.record(v);
    }
    assert_eq!((l.min, l.avg(), l.max, l.count), (3, 5, 9, 4));
}

#[test]
fn unsteady_channels_are_told_apart() {
    let word = |v: u64| vec![bits(vec![v], vec![0], 8)];
    let mut c = Channel::new();
    assert_eq!(c.check(true, false, word(1)), None);
    assert_eq!(c.check(true, false, word(1)), None);
    assert_eq!(c.check(true, false, word(2)), Some(Unstable::Changed));
    assert_eq!(c.stall_cycles(), 3);
    assert_eq!(c.check(false, false, word(2)), Some(Unstable::Deasserted));
    assert_eq!((c.stall_cycles(), c.max_stall()), (0, 3));
    assert_eq!(c.check(true, true, word(5)), None);
    assert_eq!(c.check(false, false, word(6)), None);
}

#[test]
fn a_channel_sees_unknown_bits_change() {
    let mut c = Channel::new();
    let plain = || bits(vec![1], vec![0], 4);
    assert_eq!(c.check(true, false, vec![plain()]), None);
    let floating = bits(vec![1], vec![1], 4);
    assert_eq!(
        c.check(true, true, vec![floating]),
        Some(Unstable::Changed)
    );
}

#[test]
fn traffic_is_kept_per_id() {
    let mut t = Traffic::new();
    t.announce(1, 2, 10, false);
    t.announce(2, 1, 11, true);
    t.announce(1, 4, 12, true);
    assert_eq!(t.note_beat(1, false), None);
    assert_eq!(t.note_beat(2, true), Some(1));
    assert_eq!(t.count(1), 1);
    assert_eq!(t.note_beat(1, true), Some(2));
    assert_eq!(t.count(1), 0);
    assert_eq!(t.answer(2), (Some(11), true));
    assert_eq!(t.answer(1), (Some(10), false));
    assert_eq!(t.answer(1), (Some(12), true));
    assert_eq!(t.answer(1), (None, false));
    assert!(!t.is_idle(1));
    assert_eq!(t.note_beat(1, true), Some(4));
    assert!(t.is_idle(1));
}

#[test]
fn memory_reads_back_what_was_written() {
    let mut m = Memory::new(32, Some(0x100));
    m.write_mem(0x12, &vec![0xaabb_ccdd], &vec![0b0110]);
    assert_eq!(m.read_mem(0x10), vec![0x00bb_cc00]);
    assert_eq!(m.read_mem(0x14), vec![0]);
    assert_eq!(m.key(0x13), 0x10);
    assert_eq!(m.resp_for(0xfc), OKAY);
    assert_eq!(m.resp_for(0x100), DECERR);
    m.set_resp(0x10, SLVERR);
    assert_eq!(m.resp_for(0x12), SLVERR);
    assert_eq!(m.keys(), vec![0x10]);
}

#[test]
fn filled_memory_is_predictable() {
    let mut m = Memory::new(64, None);
    assert!(m.fill_in_range(0x40, 3));
    m.fill(0x40, 3);
    assert_eq!(m.keys(), vec![0x40, 0x48, 0x50]);
    assert!(!m.fill_in_range(u64::MAX - 7, 2));
}

#[test]
fn beats_go_where_their_burst_says() {
    let beats = |start, kind, len| -> Vec<u64> {
        (0..=len)
            .map(|n| beat_addr(start, 4, kind, len, n))
            .collect()
    };
    assert_eq!(beats(0x102, FIXED, 2), vec![0x102, 0x102, 0x102]);
    assert_eq!(beats(0x102, INCR, 3), vec![0x100, 0x104, 0x108, 0x10c]);
    assert_eq!(beats(0x108, WRAP, 3), vec![0x108, 0x10c, 0x100, 0x104]);
    assert!(beat_in_range(u64::MAX - 3, 4, INCR, 1, 0));
    assert!(!beat_in_range(u64::MAX - 3, 4, INCR, 1, 1));
    assert!(beat_in_range(u64::MAX - 3, 4, WRAP, 1, 1));
}

#[test]
fn bursts_are_cut_at_the_page() {
    assert_eq!(clip(0xff0, 15, 4), 3);
    assert_eq!(clip(0xffc, 15, 4), 0);
    assert_eq!(clip(0x1000, 15, 4), 15);
    assert_eq!(clip(0, u64::MAX, 128), 31);
    assert_eq!([1, 4, 64, 96].map(count_twos), [0, 2, 6, 5]);
}

#[test]
fn failures_say_when_they_happened() {
    assert_eq!(fail_at(120, "gone"), "cycle 120: gone");
}

#[test]
fn wrapping_bursts_visit_each_word_of_their_block_once() {
    for len in [1, 3, 7, 15] {
        let block = 4 * (len + 1);
        let start = 0x1000 + 8 % block;
        let mut seen: Vec<u64> = (0..=len)
            .map(|n| beat_addr(start, 4, WRAP, len, n))
            .collect();
        seen.sort();
        let all: Vec<u64> = (0..=len).map(|n| 0x1000 + 4 * n).collect();
        assert_eq!(seen, all);
    }
}

#[test]
fn different_states_stay_different() {
    let mut seen: Vec<u64> = (1..200).map(|s| next_rand(&mut s.clone())).collect();
    seen.sort();
    seen.dedup();
    assert_eq!(seen.len(), 199);
    assert!(!seen.contains(&0));
}

#[test]
fn memory_ends_at_its_size() {
    let mut m = Memory::new(32, Some(0x102));
    assert_eq!(m.resp_for(0x101), 0);
    assert_eq!(m.resp_for(0x102), 3);
    m.set_resp(0x100, 2);
    assert_eq!(m.resp_for(0x101), 2);
    assert_eq!(m.resp_for(0x103), 3);
}
