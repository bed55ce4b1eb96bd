use ce_render::shard::{shard_count, split, FrameRange, RangeError, RangeFault, Shard};

#[test]
fn parse_range_and_single() {
    assert_eq!(FrameRange::parse("1-500").unwrap(), FrameRange { start: 1, end: 500 });
    assert_eq!(FrameRange::parse(" 42 ").unwrap(), FrameRange { start: 42, end: 42 });
    assert_eq!(FrameRange::parse("0-0").unwrap(), FrameRange { start: 0, end: 0 });
}

#[test]
fn parse_rejects_inverted_and_garbage() {
    assert!(FrameRange::parse("500-1").is_err());
    assert!(FrameRange::parse("a-b").is_err());
    assert!(FrameRange::parse("1-").is_err());
    assert!(FrameRange::parse("").is_err());
}

#[test]
fn count_is_inclusive() {
    assert_eq!(FrameRange::new(1, 500).unwrap().count(), 500);
    assert_eq!(FrameRange::new(7, 7).unwrap().count(), 1);
}

#[test]
fn display_collapses_single_frame() {
    assert_eq!(FrameRange { start: 5, end: 5 }.to_string(), "5");
    assert_eq!(FrameRange { start: 1, end: 10 }.to_string(), "1-10");
}

/// The load-bearing invariant: shards partition the range exactly.
fn assert_partitions(range: FrameRange, shards: &[Shard]) {
    assert!(!shards.is_empty(), "a non-empty range must yield at least one shard");
    for (i, s) in shards.iter().enumerate() {
        assert_eq!(s.index as usize, i, "shard indices must be contiguous 0-based");
    }
    assert_eq!(shards.first().unwrap().range.start, range.start);
    assert_eq!(shards.last().unwrap().range.end, range.end);
    for w in shards.windows(2) {
        assert_eq!(w[1].range.start, w[0].range.end + 1, "shards must be contiguous and gap-free");
    }
    let total: u32 = shards.iter().map(|s| s.count()).sum();
    assert_eq!(total, range.count(), "shard frame counts must sum to the range count");
}

#[test]
fn split_even_division() {
    let r = FrameRange::new(1, 100).unwrap();
    let shards = split(r, 10);
    assert_eq!(shards.len(), 10);
    assert_eq!(shards[0].range, FrameRange { start: 1, end: 10 });
    assert_eq!(shards[9].range, FrameRange { start: 91, end: 100 });
    assert_partitions(r, &shards);
}

#[test]
fn split_uneven_last_shard_short() {
    let r = FrameRange::new(1, 25).unwrap();
    let shards = split(r, 10);
    assert_eq!(shards.len(), 3);
    assert_eq!(shards[2].range, FrameRange { start: 21, end: 25 }, "last shard holds the remainder");
    assert_partitions(r, &shards);
}

#[test]
fn split_shard_larger_than_range() {
    let r = FrameRange::new(5, 9).unwrap();
    let shards = split(r, 1000);
    assert_eq!(shards.len(), 1, "one shard covers the whole range");
    assert_eq!(shards[0].range, r);
    assert_partitions(r, &shards);
}

#[test]
fn split_single_frame() {
    let r = FrameRange::new(42, 42).unwrap();
    let shards = split(r, 8);
    assert_eq!(shards.len(), 1);
    assert_eq!(shards[0].count(), 1);
    assert_partitions(r, &shards);
}

#[test]
fn split_size_one_is_one_frame_each() {
    let r = FrameRange::new(0, 4).unwrap();
    let shards = split(r, 1);
    assert_eq!(shards.len(), 5);
    assert!(shards.iter().all(|s| s.count() == 1));
    assert_partitions(r, &shards);
}

#[test]
fn split_zero_size_treated_as_one() {
    let r = FrameRange::new(1, 3).unwrap();
    let shards = split(r, 0);
    assert_eq!(shards.len(), 3, "shard_size 0 degrades to 1 frame per shard");
    assert_partitions(r, &shards);
}

#[test]
fn shard_count_matches_split_len() {
    for (s, e, sz) in [(1, 100, 10), (1, 25, 10), (0, 0, 5), (5, 9, 1000), (1, 7, 3)] {
        let r = FrameRange::new(s, e).unwrap();
        assert_eq!(shard_count(r, sz) as usize, split(r, sz).len(), "{s}-{e}/{sz}");
    }
}

#[test]
fn split_handles_high_frame_numbers_without_overflow() {
    let r = FrameRange::new(u32::MAX - 3, u32::MAX).unwrap();
    let shards = split(r, 2);
    assert_eq!(shards.len(), 2);
    assert_partitions(r, &shards);
}

fn fault(spec: &str) -> RangeError {
    FrameRange::parse(spec).unwrap_err()
}

#[test]
fn range_faults_say_what_is_wrong() {
    assert_eq!(fault(" 500-1 "), RangeFault::Inverted { start: 500, end: 1 });
    assert_eq!(fault("500-1").message(), "invalid frame range 500-1: end is before start");
    assert_eq!(fault("a-b").message(), "bad frame start in 'a-b'");
    assert_eq!(fault(" 1- ").message(), "bad frame end in '1-'");
    assert_eq!(fault("x").message(), "bad frame number 'x'");
    assert_eq!(fault("").message(), "bad frame number ''");
    assert_eq!(FrameRange::new(3, 2).unwrap_err().message(), "invalid frame range 3-2: end is before start");
}

#[test]
fn range_numbers_are_u32() {
    assert_eq!(FrameRange::parse("0-4294967295").unwrap(), FrameRange { start: 0, end: u32::MAX });
    assert_eq!(fault("4294967296"), RangeFault::BadNumber { spec: "4294967296".to_string() });
    assert_eq!(fault("1-2-3"), RangeFault::BadEnd { spec: "1-2-3".to_string() });
    assert_eq!(fault("-5"), RangeFault::BadStart { spec: "-5".to_string() });
    assert_eq!(FrameRange::parse("+1 - +3").unwrap(), FrameRange { start: 1, end: 3 });
    assert_eq!(FrameRange::parse("007").unwrap(), FrameRange { start: 7, end: 7 });
    assert_eq!(FrameRange::parse("\u{a0}4\u{3000}").unwrap(), FrameRange { start: 4, end: 4 });
}

#[test]
fn shown_ranges_read_back() {
    for r in [FrameRange { start: 0, end: 0 }, FrameRange { start: 9, end: 10 }, FrameRange { start: 1, end: u32::MAX }] {
        assert_eq!(FrameRange::parse(&r.to_string()).unwrap(), r);
    }
}

#[test]
fn inverted_range_has_no_shards() {
    assert!(split(FrameRange { start: 5, end: 4 }, 2).is_empty());
}

#[test]
fn each_frame_stands_in_one_shard() {
    let shards = split(FrameRange { start: 3, end: 17 }, 4);
    for frame in 0..25u32 {
        let holders = shards.iter().filter(|s| s.range.start <= frame && frame <= s.range.end).count();
        assert_eq!(holders, if (3..=17).contains(&frame) { 1 } else { 0 });
    }
}

#[test]
fn every_frame_there_is_can_be_counted_in_shards() {
    let all = FrameRange { start: 0, end: u32::MAX };
    assert_eq!(shard_count(all, 2), 2147483648);
    assert_eq!(shard_count(all, 3), 1431655766);
    assert_eq!(shard_count(all, u32::MAX), 2);
    assert_eq!(split(all, u32::MAX).len(), 2);
    assert_eq!(split(all, 1 << 30).len(), shard_count(all, 1 << 30) as usize);
    assert_eq!(shard_count(FrameRange { start: 1, end: u32::MAX }, 0), u32::MAX);
    assert_eq!(shard_count(FrameRange { start: 5, end: 4 }, 2), 0);
}
