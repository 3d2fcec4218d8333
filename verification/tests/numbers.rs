use jsonl_peek::render::{human_bytes, percent, render_value, thousands, truncate};
use jsonl_peek::rounding::{
    is_at_least, push_fixed, round_half_even, round_quotient, round_whole, Fraction,
};
use jsonl_peek::{parse, SplitMix64};

/// Numbers of every size, with those that lie half way between two doubles.
fn numbers() -> Vec<u64> {
    let mut list: Vec<u64> = (0..130).collect();
    for shift in 7..64u32 {
        let base = 1u64 << shift;
        for d in [0u64, 1, 2, 3, 5] {
            list.push(base.wrapping_add(d));
            list.push(base.wrapping_sub(d));
        }
        if shift > 53 {
            let half = 1u64 << (shift - 54);
            for k in [1u64, 2, 3] {
                list.push(base + k * half);
                list.push(base + k * half + 1);
                list.push(base + k * half - 1);
            }
        }
    }
    list.push(u64::MAX);
    let mut rng = SplitMix64::new(5);
    for i in 0..400 {
        list.push(rng.next_u64() >> (i % 64));
    }
    list
}

#[test]
fn whole_numbers_round_as_doubles_do() {
    for n in numbers() {
        assert_eq!(round_whole(n as u128), n as f64 as u128, "{}", n);
    }
}

#[test]
fn quotients_round_as_doubles_do() {
    let list = numbers();
    for (i, a) in list.iter().enumerate() {
        let b = list[(i * 7 + 3) % list.len()];
        if b == 0 {
            continue;
        }
        let x = round_quotient(round_whole(*a as u128), round_whole(b as u128));
        let wanted = *a as f64 / b as f64;
        assert_eq!(x.num as f64 / x.den as f64, wanted, "{} / {}", a, b);
        assert!(is_at_least(x, wanted.to_bits()));
        if wanted > 0.0 {
            assert!(!is_at_least(x, wanted.to_bits() + 1));
            assert!(is_at_least(x, wanted.to_bits() - 1));
        }
    }
}

#[test]
fn percentages_print_as_doubles_do() {
    let list = numbers();
    for (i, a) in list.iter().enumerate() {
        let b = list[(i * 11 + 5) % list.len()];
        let wanted = if b == 0 {
            "-".to_string()
        } else {
            format!("{:.1}%", *a as f64 * 100.0 / b as f64)
        };
        assert_eq!(percent(*a, b), wanted, "{} of {}", a, b);
    }
    // Half way between two numerals the even one is printed.
    assert_eq!(percent(1, 16), "6.2%");
    assert_eq!(percent(3, 16), "18.8%");
}

#[test]
fn decimals_print_as_doubles_do() {
    let list = numbers();
    for (i, a) in list.iter().enumerate() {
        let b = list[(i * 13 + 1) % list.len()];
        if b == 0 {
            continue;
        }
        let x = round_quotient(round_whole(*a as u128), round_whole(b as u128));
        for places in 1..5 {
            let mut out = String::new();
            push_fixed(&mut out, x, places);
            assert_eq!(out, format!("{:.*}", places, *a as f64 / b as f64), "{} / {}", a, b);
        }
    }
}

#[test]
fn sizes_print_as_doubles_do() {
    for n in numbers() {
        let mut value = n as f64;
        let mut unit = 0;
        while value >= 1024.0 && unit < 4 {
            value /= 1024.0;
            unit += 1;
        }
        let wanted = if unit == 0 {
            format!("{} B", n)
        } else {
            format!("{:.1} {}", value, ["B", "KiB", "MiB", "GiB", "TiB"][unit])
        };
        assert_eq!(human_bytes(n), wanted, "{}", n);
    }
    assert_eq!(human_bytes(1023), "1023 B");
    assert_eq!(human_bytes(1024), "1.0 KiB");
    assert_eq!(human_bytes(u64::MAX), "16777216.0 TiB");
}

#[test]
fn halves_round_to_even() {
    assert_eq!(round_half_even(5, 2), 2);
    assert_eq!(round_half_even(7, 2), 4);
    assert_eq!(round_half_even(8, 3), 3);
    assert_eq!(round_half_even(7, 3), 2);
}

#[test]
fn comparisons_with_special_doubles() {
    let one = Fraction { num: 1, den: 1 };
    assert!(is_at_least(one, 1.0f64.to_bits()));
    assert!(!is_at_least(one, f64::NAN.to_bits()));
    assert!(!is_at_least(one, f64::INFINITY.to_bits()));
    assert!(is_at_least(one, f64::NEG_INFINITY.to_bits()));
    assert!(is_at_least(one, (-3.5f64).to_bits()));
    assert!(is_at_least(Fraction { num: 0, den: 1 }, (-0.0f64).to_bits()));
    assert!(!is_at_least(Fraction { num: 0, den: 1 }, 5e-324f64.to_bits()));
    assert!(!is_at_least(one, f64::MAX.to_bits()));
}

#[test]
fn grouping_keeps_the_digits() {
    for n in numbers() {
        assert_eq!(thousands(n).replace(',', ""), n.to_string());
    }
    assert_eq!(thousands(1_000_000), "1,000,000");
    assert_eq!(thousands(1_002_003), "1,002,003");
    assert_eq!(thousands(u64::MAX), "18,446,744,073,709,551,615");
}

#[test]
fn cut_texts_fit() {
    assert_eq!(truncate("abc", 3), "abc");
    assert_eq!(truncate("abcd", 1), "~");
    assert_eq!(truncate("abcd", 0), "~");
    assert_eq!(truncate("äöüß", 3), "äö~");
}

#[test]
fn long_values_are_cut_at_a_character() {
    let value = |text: &str| render_value(&parse(text).unwrap());
    assert_eq!(value("[1, 2]"), "[1,2]");
    let exact = format!("\"{}\"", "a".repeat(94));
    assert_eq!(value(&exact), exact);
    let longer = format!("\"{}\"", "a".repeat(95));
    assert_eq!(value(&longer), format!("\"{}...", "a".repeat(95)));
    // Byte 96 falls inside a character of two bytes: the cut comes before it.
    let wide = format!("\"{}\"", "é".repeat(60));
    assert_eq!(value(&wide), format!("\"{}...", "é".repeat(47)));
    let shifted = format!("\"a{}\"", "é".repeat(60));
    assert_eq!(value(&shifted), format!("\"a{}...", "é".repeat(47)));
}
