use meadow::glade::pauses::{bucket, upper, Pauses};

#[test]
fn buckets_are_ordered_and_hold_what_they_say() {
    let mut last = 0;
    for n in [
        1u64,
        2,
        3,
        5,
        8,
        100,
        1000,
        4096,
        5000,
        1 << 20,
        123_456_789,
    ] {
        let b = bucket(n);
        assert!(b >= last, "{n} went backwards");
        assert!(n <= upper(b), "{n} is above its bucket's top {}", upper(b));
        if b > 0 {
            assert!(n > upper(b - 1), "{n} belongs in an earlier bucket");
        }
        last = b;
    }
}

fn rank(part: f64, p: &Pauses) -> u64 {
    (part * p.count as f64).ceil() as u64
}

#[test]
fn percentiles_find_the_tail() {
    let mut p = Pauses::default();
    for _ in 0..990 {
        p.record(10_000);
    }
    for _ in 0..10 {
        p.record(2_000_000);
    }
    assert!(p.percentile(rank(0.5, &p)) < 13_000);
    assert!(p.percentile(rank(0.99, &p)) < 13_000);
    assert!(p.percentile(rank(0.999, &p)) >= 2_000_000);
    assert_eq!(p.max_nanos, 2_000_000);
    let mut q = Pauses::default();
    q.record(5);
    q.merge(&p);
    assert_eq!(q.count, 1001);
}

#[test]
fn no_pause_has_no_percentile() {
    assert_eq!(Pauses::default().percentile(1), 0);
}

#[test]
fn a_single_pause_is_every_percentile() {
    let mut p = Pauses::default();
    p.record(777);
    assert_eq!(p.percentile(0), 777);
    assert_eq!(p.percentile(1), 777);
    assert_eq!(p.percentile(9), 777);
    assert_eq!(p.total_nanos, 777);
}

#[test]
fn merging_is_recording_both() {
    let made = |ns: &[u64]| {
        let mut p = Pauses::default();
        for n in ns {
            p.record(*n);
        }
        p
    };
    let (xs, ys) = ([5u64, 900, 31], [7u64, 1_000_000]);
    let mut ab = made(&xs);
    ab.merge(&made(&ys));
    let mut ba = made(&ys);
    ba.merge(&made(&xs));
    let all = made(&[5, 900, 31, 7, 1_000_000]);
    for p in [&ab, &ba] {
        assert_eq!((p.count, p.total_nanos, p.max_nanos), (all.count, all.total_nanos, all.max_nanos));
        assert_eq!(p.counts, all.counts);
        for rank in 0..7 {
            assert_eq!(p.percentile(rank), all.percentile(rank));
        }
    }
    assert_eq!(all.percentile(5), 1_000_000);
    assert!(all.percentile(2) <= all.percentile(3));
}

#[test]
fn a_percentile_is_exact_to_within_a_quarter_octave() {
    let mut p = Pauses::default();
    p.record(1024);
    p.record(1 << 20);
    assert_eq!(p.percentile(rank(0.5, &p)), 1217);
    assert_eq!(upper(bucket(10_000)), 11585);
    assert_eq!((upper(0), upper(1), upper(2), upper(3)), (4, 5, 6, 7));
    assert_eq!(upper(247), u64::MAX);
    assert_eq!((bucket(0), bucket(4), bucket(5), bucket(u64::MAX)), (0, 0, 1, 247));
    for i in 3..247 {
        let (low, high) = (upper(i) + 1, upper(i + 1));
        assert_eq!((bucket(low), bucket(high)), (i + 1, i + 1));
        assert!((high - low) as u128 * 100 <= low as u128 * 19, "bucket {i} is {low}..={high}");
    }
}
