use plato_music_sync::polyrhythm::{gcd, lcm};

#[test]
fn test_lcm_basic() {
    assert_eq!(lcm(4, 6), 12);
    assert_eq!(lcm(3, 5), 15);
    assert_eq!(lcm(7, 7), 7);
}

#[test]
fn gcd_values() {
    assert_eq!(gcd(12, 18), 6);
    assert_eq!(gcd(18, 12), 6);
    assert_eq!(gcd(7, 0), 7);
    assert_eq!(gcd(0, 7), 7);
    assert_eq!(gcd(0, 0), 0);
    assert_eq!(gcd(17, 5), 1);
}

#[test]
fn lcm_with_zero_is_zero() {
    assert_eq!(lcm(0, 5), 0);
    assert_eq!(lcm(5, 0), 0);
    assert_eq!(lcm(0, 0), 0);
}

#[test]
fn lcm_of_tick_periods() {
    // periods of 5 s, 1 s and 10 s realign after 10 s
    assert_eq!(lcm(lcm(5, 1), 10), 10);
    assert_eq!(lcm(4, 6) * gcd(4, 6), 4 * 6);
    assert_eq!(lcm(u64::MAX, u64::MAX), u64::MAX);
}
