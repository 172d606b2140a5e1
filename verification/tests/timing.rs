use rusty_ray::timing::pretty_time;

#[test]
fn short_times_have_padded_minutes_and_seconds() {
    assert_eq!(pretty_time(0, 0), "0:00:00.0");
    assert_eq!(pretty_time(5, 120), "0:00:05.120");
    assert_eq!(pretty_time(59, 999_999_999), "0:00:59.999999999");
    assert_eq!(pretty_time(60, 1), "0:01:00.1");
}

#[test]
fn hours_are_not_padded_nor_capped() {
    assert_eq!(pretty_time(3661, 5), "1:01:01.5");
    assert_eq!(pretty_time(36_000 + 11 * 60 + 12, 13), "10:11:12.13");
    assert_eq!(pretty_time(100 * 3600 + 59 * 60 + 59, 0), "100:59:59.0");
    assert_eq!(pretty_time(u64::MAX, u32::MAX), "5124095576030431:00:15.4294967295");
}

#[test]
fn times_are_rendered_as_the_formatter_does() {
    let mut seed: u64 = 99;
    for _ in 0..500 {
        seed = seed.wrapping_mul(6364136223846793005).wrapping_add(1442695040888963407);
        let seconds = seed >> 40;
        let nanos = (seed >> 8) as u32 % 1_000_000_000;
        let expected = format!(
            "{}:{:02}:{:02}.{}",
            seconds / 3600,
            seconds / 60 % 60,
            seconds % 60,
            nanos
        );
        assert_eq!(pretty_time(seconds, nanos), expected);
    }
}
