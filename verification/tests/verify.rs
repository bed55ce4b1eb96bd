use ce_render::fraction::Fraction;
use ce_render::verify::{agrees, key, key_from_digest, message_for, select_canaries, wanted_count, Verdict};

fn fraction(x: f32) -> Fraction {
    Fraction { bits: x.to_bits() }
}

fn canary_set(total: usize, pct: f32, beacon_hash: &str) -> Vec<usize> {
    ce_render::verify::canary_set(total, fraction(pct), beacon_hash)
}

#[test]
fn pct_zero_selects_none() {
    assert!(canary_set(100, 0.0, "beacon").is_empty());
    assert!(canary_set(0, 0.5, "beacon").is_empty());
}

#[test]
fn pct_one_selects_all() {
    assert_eq!(canary_set(5, 1.0, "beacon"), vec![0, 1, 2, 3, 4]);
}

#[test]
fn pct_fraction_rounds_up_and_is_in_range() {
    let set = canary_set(100, 0.05, "beacon-hash");
    assert_eq!(set.len(), 5, "5% of 100 = 5");
    assert!(set.iter().all(|&i| i < 100));
    let mut sorted = set.clone();
    sorted.sort_unstable();
    sorted.dedup();
    assert_eq!(set, sorted);
}

#[test]
fn nonzero_pct_audits_at_least_one() {
    assert_eq!(canary_set(10, 0.01, "b").len(), 1);
}

#[test]
fn selection_is_deterministic_per_beacon() {
    let a = canary_set(50, 0.2, "beacon-X");
    let b = canary_set(50, 0.2, "beacon-X");
    assert_eq!(a, b, "same beacon → same canary set");
}

#[test]
fn selection_varies_with_beacon() {
    let a = canary_set(50, 0.1, "beacon-0");
    let moved = (1..20).any(|i| canary_set(50, 0.1, &format!("beacon-{i}")) != a);
    assert!(moved, "varying the beacon should vary which frames are audited");
}

#[test]
fn agrees_on_equal_cids() {
    assert_eq!(agrees("cidA", "cidA"), Verdict::Agree);
    assert_eq!(agrees("cidA", "cidB"), Verdict::Diverge);
    assert_eq!(agrees("", ""), Verdict::Diverge, "empty CIDs never agree");
}

#[test]
fn keys_are_the_head_of_a_digest() {
    assert_eq!(key("beacon", 0), 5627792723856149559);
    assert_eq!(key("beacon", 1), 8186654541433724029);
    assert_eq!(key("", 7), 16169604636071309671);
    let mut digest = [0u8; 32];
    digest[0] = 1;
    digest[7] = 2;
    digest[8] = 99;
    assert_eq!(key_from_digest(&digest), 0x0100_0000_0000_0002);
    assert_eq!(message_for("ab", 258), vec![b'a', b'b', b'|', 0, 0, 0, 0, 0, 0, 1, 2]);
}

#[test]
fn known_canary_sets() {
    assert_eq!(canary_set(10, 0.3, "beacon"), vec![2, 3, 8]);
    assert_eq!(canary_set(100, 0.05, "pow-tip-hash-abc"), vec![16, 22, 44, 48, 50]);
    assert_eq!(canary_set(100, 0.05, "beacon-hash"), vec![8, 51, 64, 71, 95]);
}

#[test]
fn a_higher_dial_keeps_the_shards_of_a_lower_one() {
    let low = canary_set(40, 0.1, "tip");
    let high = canary_set(40, 0.6, "tip");
    assert!(low.iter().all(|i| high.contains(i)));
    assert!(high.len() > low.len());
    let mut before: Vec<usize> = canary_set(40, -1.0, "tip");
    for step in 0..=100 {
        let now = canary_set(40, step as f32 / 100.0, "tip");
        assert!(before.iter().all(|i| now.contains(i)), "{step}");
        before = now;
    }
    assert_eq!(before.len(), 40);
    assert_eq!(canary_set(40, 0.0, "tip"), canary_set(40, -0.0, "tip"));
}

#[test]
fn equal_keys_go_by_number() {
    assert_eq!(select_canaries(&[7, 3, 7, 3], 3), vec![0, 1, 3]);
    assert_eq!(select_canaries(&[7, 3], 9), vec![0, 1]);
    assert_eq!(select_canaries(&[7, 3], 0), Vec::<usize>::new());
}

#[test]
fn the_share_is_clamped() {
    assert_eq!(wanted_count(10, fraction(0.1)), 1);
    assert_eq!(wanted_count(10, fraction(0.35)), 4);
    assert_eq!(wanted_count(10, fraction(f32::MIN_POSITIVE)), 1);
    assert_eq!(wanted_count(10, fraction(0.99999994)), 10);
    assert_eq!(wanted_count(0, fraction(0.5)), 0);
    assert_eq!(wanted_count(10, fraction(-0.5)), 0);
    assert_eq!(wanted_count(10, fraction(2.5)), 10);
}

#[test]
fn shares_are_those_of_the_machine() {
    let mut totals: Vec<usize> = (1..40).collect();
    for k in 5..64u32 {
        let p = 1usize << k;
        totals.extend([p - 1, p, p + 1, p + p / 2, p + p / 3, p / 7 + 3]);
    }
    totals.extend([usize::MAX, usize::MAX - 1, 16777217, 16777219, 33554434, 33554438, 100, 1000, 123456789]);
    let mut seed: u64 = 0x9e37_79b9_7f4a_7c15;
    let mut fractions: Vec<f32> = vec![
        0.05, 0.1, 0.2, 0.25, 0.3, 0.5, 0.75, 0.9, 0.99999994, 1.0e-30, f32::MIN_POSITIVE, f32::from_bits(1),
        f32::from_bits(0x007f_ffff), f32::from_bits(0x3effffff), 0.33333334,
    ];
    for _ in 0..400 {
        seed ^= seed << 13;
        seed ^= seed >> 7;
        seed ^= seed << 17;
        fractions.push(f32::from_bits((seed % 0x3f80_0000) as u32));
        fractions.push((seed % 1000) as f32 / 1000.0);
    }
    for &total in &totals {
        for &pct in &fractions {
            if pct <= 0.0 || pct >= 1.0 {
                continue;
            }
            let expected = ((total as f32) * pct).ceil() as u128;
            assert_eq!(fraction(pct).share(total), expected, "{total} * {pct}");
        }
    }
    assert_eq!(fraction(f32::NAN).share(9), 0);
}

#[test]
fn fractions_compare_as_the_numbers_do() {
    let samples = [
        0.0f32, -0.0, 1.0, -1.0, 0.5, 1.5, 1.0000001, 0.99999994, f32::MIN_POSITIVE, -f32::MIN_POSITIVE,
        f32::INFINITY, f32::NEG_INFINITY, f32::NAN, -f32::NAN, f32::from_bits(1), f32::MAX,
    ];
    for x in samples {
        let f = fraction(x);
        assert_eq!(f.is_at_most_zero(), x <= 0.0, "{x}");
        assert_eq!(f.is_at_least_one(), x >= 1.0, "{x}");
        assert_eq!(f.is_within_unit(), (0.0..=1.0).contains(&x), "{x}");
    }
}

#[test]
fn a_number_that_is_none_checks_one_shard() {
    assert_eq!(canary_set(8, f32::NAN, "b").len(), 1);
}
