use jsonl_peek::lines::find_line_end;
use jsonl_peek::table::{side_of, Side, Table};
use jsonl_peek::tally::{Count, Tally};
use jsonl_peek::text::{
    char_count, chars_of, decimal_text, offset_of, parse_i64, parse_u64, push_pad_end,
    push_pad_start, same_text, substring,
};
use jsonl_peek::utf8::decode;
use jsonl_peek::{Histogram, LineReader, Reservoir, SplitMix64};

fn cut(data: &[u8]) -> Vec<(u64, Vec<u8>, usize)> {
    let mut reader = LineReader::new();
    let mut p = 0;
    let mut list = Vec::new();
    while p < data.len() {
        let end = find_line_end(data, p);
        let line = reader.next_line(&data[p..end]);
        list.push((line.number, line.bytes.to_vec(), line.raw_len));
        p = end;
    }
    list
}

#[test]
fn lines_lose_their_endings() {
    assert_eq!(
        cut(b"a\nb\r\n\nc"),
        vec![
            (1, b"a".to_vec(), 2),
            (2, b"b".to_vec(), 3),
            (3, b"".to_vec(), 1),
            (4, b"c".to_vec(), 1),
        ]
    );
    assert!(cut(b"").is_empty());
}

#[test]
fn only_the_first_line_loses_a_mark() {
    assert_eq!(
        cut(b"\xEF\xBB\xBFa\n\xEF\xBB\xBFb\n"),
        vec![(1, b"a".to_vec(), 5), (2, b"\xEF\xBB\xBFb".to_vec(), 5)]
    );
}

#[test]
fn a_final_newline_is_optional() {
    let with = cut(b"x\ny\n");
    let without = cut(b"x\ny");
    assert_eq!(with.len(), without.len());
    for (a, b) in with.iter().zip(without.iter()) {
        assert_eq!(a.1, b.1);
    }
}

#[test]
fn lines_account_for_every_byte() {
    let data = b"\xEF\xBB\xBF{}\r\n\n  \nlast";
    let total: usize = cut(data).iter().map(|l| l.2).sum();
    assert_eq!(total, data.len());
}

#[test]
fn blank_lines_hold_nothing_but_white_space() {
    let mut reader = LineReader::new();
    assert!(reader.next_line(b" \t\r\n").is_blank());
    assert!(reader.next_line(b"\n").is_blank());
    assert!(!reader.next_line(b" x \n").is_blank());
    assert!(!reader.next_line(b"\x0B\n").is_blank());
}

#[test]
fn utf8_is_decoded_or_its_valid_part_measured() {
    let text = "aé日😀\u{7ff}\u{ffff}\u{10ffff}";
    assert_eq!(decode(text.as_bytes()), Ok(text.chars().collect()));
    for bytes in [
        &b"ab\xFF"[..],
        b"\xC0\x80",
        b"x\xE0\x80\x80",
        b"\xED\xA0\x80",
        b"ok\xF4\x90\x80\x80",
        b"\xE6\x97",
        b"a\xF0\x9F\x98",
        b"\x80",
        b"\xC3(",
    ] {
        let wanted = std::str::from_utf8(bytes).unwrap_err().valid_up_to();
        assert_eq!(decode(bytes), Err(wanted), "{:?}", bytes);
    }
}

#[test]
fn histograms_summarise_their_samples() {
    let mut h = Histogram::new();
    assert_eq!((h.min(), h.max(), h.quantile(50)), (None, None, None));
    assert!(h.mean().is_none());
    for v in 1..=20u64 {
        h.record(v);
    }
    assert_eq!(h.count(), 20);
    assert_eq!((h.min(), h.max()), (Some(1), Some(20)));
    assert_eq!(h.quantile(50), Some(10));
    assert_eq!(h.quantile(90), Some(18));
    assert_eq!(h.quantile(99), Some(20));
    assert_eq!(h.quantile(0), Some(1));
    assert_eq!(h.quantile(100), Some(20));
    let mean = h.mean().unwrap();
    assert_eq!(mean.num as f64 / mean.den as f64, 10.5);
}

#[test]
fn percentiles_of_large_samples_are_close() {
    let mut h = Histogram::new();
    let mut rng = SplitMix64::new(11);
    let mut samples: Vec<u64> = (0..999).map(|i| rng.next_u64() >> (20 + i % 40)).collect();
    for v in &samples {
        h.record(*v);
    }
    samples.sort();
    for percent in [1u64, 10, 50, 90, 99, 100] {
        let rank = ((999 * percent + 99) / 100) as usize;
        let exact = samples[rank - 1];
        let q = h.quantile(percent).unwrap();
        assert!(q <= exact && exact - q <= q / 16, "{} is not close to {}", q, exact);
    }
}

#[test]
fn the_generator_is_the_published_one() {
    let mut rng = SplitMix64::new(1234567);
    let draws: Vec<u64> = (0..5).map(|_| rng.next_u64()).collect();
    assert_eq!(
        draws,
        vec![
            6457827717110365317,
            3203168211198807973,
            9817491932198370423,
            4593380528125082431,
            16408922859458223821,
        ]
    );
}

#[test]
fn draws_stay_below_their_bound() {
    let mut rng = SplitMix64::new(3);
    for n in [1u64, 2, 3, 10, 1 << 40, u64::MAX] {
        for _ in 0..50 {
            assert!(rng.below(n) < n);
        }
    }
}

fn sample(n: usize, seed: u64, len: u64) -> Vec<(u64, u64)> {
    let mut r = Reservoir::new(n, seed);
    for i in 0..len {
        r.offer(i, i * 10);
    }
    r.into_sorted()
}

#[test]
fn samples_have_the_right_size_and_order() {
    for seed in 0..20 {
        let s = sample(7, seed, 100);
        assert_eq!(s.len(), 7);
        for w in s.windows(2) {
            assert!(w[0].0 < w[1].0);
        }
        for (i, item) in &s {
            assert!(*i < 100);
            assert_eq!(*item, i * 10);
        }
    }
    assert!(sample(0, 1, 5).is_empty());
}

#[test]
fn short_streams_are_kept_whole() {
    assert_eq!(sample(5, 8, 3), vec![(0, 0), (1, 10), (2, 20)]);
}

#[test]
fn samples_reach_every_part_of_the_stream() {
    let mut hits = [0u32; 20];
    for seed in 0..400 {
        for (i, _) in sample(5, seed, 20) {
            hits[i as usize] += 1;
        }
    }
    assert_eq!(hits.iter().sum::<u32>(), 2000);
    for n in hits {
        assert!(n > 50 && n < 150, "a line was drawn {} times", n);
    }
}

#[test]
fn tables_keep_their_keys_in_byte_order() {
    let mut t: Table<Count> = Table::new();
    assert!(t.is_empty());
    for (name, n) in [("b", 1), ("a", 2), ("é", 3), ("ab", 4), ("", 5), ("z", 6)] {
        match t.find(name) {
            Ok(_) => panic!("{} is new", name),
            Err(i) => t.insert_at(i, name.to_string(), Count { n }),
        }
    }
    let keys: Vec<&String> = (0..t.len()).map(|i| t.key_at(i)).collect();
    assert_eq!(keys, vec!["", "a", "ab", "b", "z", "é"]);
    assert_eq!(t.get("ab").map(|c| c.n), Some(4));
    assert!(t.get("abc").is_none());
    t.value_at_mut(0).n = 9;
    assert_eq!(t.value_at(0).n, 9);
}

#[test]
fn names_are_ordered_by_their_bytes() {
    for (a, b) in [("a", "b"), ("", "x"), ("ab", "abc"), ("z", "é"), ("\u{ffff}", "😀"), ("q", "q")] {
        let side = match side_of(a, b) {
            Side::Before => a.as_bytes() < b.as_bytes(),
            Side::Same => a == b,
            Side::After => a.as_bytes() > b.as_bytes(),
        };
        assert!(side, "{} and {}", a, b);
    }
}

#[test]
fn tallies_count_and_rank() {
    let mut t = Tally::new();
    for name in ["b", "a", "c", "a", "c", "d"] {
        t.bump(name);
    }
    assert_eq!(t.get("a"), Some(&2));
    assert_eq!(t.get("x"), None);
    assert_eq!(t.len(), 4);
    assert_eq!(t.by_frequency(), vec![("a", 2), ("c", 2), ("b", 1), ("d", 1)]);
    assert!(!t.is_empty());
    assert!(t.contains_key("d"));
    assert_eq!((t.name_at(1).as_str(), t.count_at(1)), ("b", 1));
}

#[test]
fn numerals_are_read_as_rust_reads_them() {
    for text in [
        "0", "7", "007", "+5", "-5", "", "+", "-", "1a", " 1", "18446744073709551615",
        "18446744073709551616", "9223372036854775807", "-9223372036854775808",
        "9223372036854775808", "-9223372036854775809", "１",
    ] {
        assert_eq!(parse_u64(text), text.parse::<u64>().ok(), "{}", text);
        assert_eq!(parse_i64(&chars_of(text)), text.parse::<i64>().ok(), "{}", text);
    }
}

#[test]
fn texts_are_measured_cut_and_padded() {
    let chars = chars_of("aé日😀");
    assert_eq!(chars.len(), 4);
    assert_eq!(char_count("aé日😀"), 4);
    assert_eq!(
        (0..5).map(|i| offset_of(&chars, i)).collect::<Vec<usize>>(),
        vec![0, 1, 3, 6, 10]
    );
    assert_eq!(substring(&chars, 1, 3), "é日");
    assert!(same_text("é", "é"));
    assert!(!same_text("é", "e"));
    assert_eq!(decimal_text(u64::MAX), "18446744073709551615");
    let mut out = String::from("[");
    push_pad_start(&mut out, "é", 3);
    push_pad_end(&mut out, "ab", 4);
    push_pad_end(&mut out, "toolong", 2);
    assert_eq!(out, "[  éab  toolong");
}

fn times(x: u64, y: u64) -> u64 {
    x.wrapping_mul(y)
}

/// The seed from which `draw` is drawn first.
fn seed_of(draw: u64) -> u64 {
    let b = times(draw ^ (draw >> 31) ^ (draw >> 62), 0x3196_42B2_D24D_8EC3);
    let a = times(b ^ (b >> 27) ^ (b >> 54), 0x96DE_1B17_3F11_9089);
    (a ^ (a >> 30) ^ (a >> 60)).wrapping_sub(0x9E37_79B9_7F4A_7C15)
}

#[test]
fn every_draw_has_its_seed() {
    for draw in [0, 1, 2, 41, 1 << 31, u64::MAX / 3, u64::MAX - 1, u64::MAX] {
        assert_eq!(SplitMix64::new(seed_of(draw)).next_u64(), draw);
    }
}

#[test]
fn draws_are_spread_over_runs_of_equal_length() {
    let all = 1u128 << 64;
    for n in [1u64, 2, 3, 7, 10, 1000, (1 << 40) + 1] {
        for slot in [0, n / 3, n / 2, n - 1] {
            let first = (slot as u128 * all + n as u128 - 1) / n as u128;
            let next = ((slot as u128 + 1) * all + n as u128 - 1) / n as u128;
            assert!(next - first == all / n as u128 || next - first == all / n as u128 + 1);
            for draw in [first, next - 1] {
                assert_eq!(SplitMix64::new(seed_of(draw as u64)).below(n), slot);
            }
            if slot > 0 {
                assert_eq!(SplitMix64::new(seed_of(first as u64 - 1)).below(n), slot - 1);
            }
        }
    }
}

#[test]
fn a_full_sample_keeps_its_share_of_the_offers() {
    // The fourth offer to a sample of three is kept for three quarters of the draws, one quarter
    // for each place.
    let quarter = 1u64 << 62;
    for (draw, wanted) in [
        (0, vec![1, 2, 3]),
        (quarter - 1, vec![1, 2, 3]),
        (quarter, vec![0, 2, 3]),
        (2 * quarter, vec![0, 1, 3]),
        (3 * quarter - 1, vec![0, 1, 3]),
        (3 * quarter, vec![0, 1, 2]),
        (u64::MAX, vec![0, 1, 2]),
    ] {
        let kept: Vec<u64> = sample(3, seed_of(draw), 4).into_iter().map(|(i, _)| i).collect();
        assert_eq!(kept, wanted);
    }
}
