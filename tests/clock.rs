use arena_server::clock::Tick;

#[test]
fn tick_new_clears_top_bit() {
    assert_eq!(Tick::new(0xFFFF_FFFF).value(), 0x7FFF_FFFF);
    assert_eq!(Tick::new(0x8000_0005).value(), 5);
    assert_eq!(Tick::new(1234).value(), 1234);
}

#[test]
fn tick_from_millis_uses_centiseconds() {
    assert_eq!(Tick::from_millis(12_345).value(), 1234);
    assert_eq!(Tick::from_millis(9).value(), 0);
    // 2^31 centiseconds wrap to zero.
    assert_eq!(Tick::from_millis(21_474_836_480).value(), 0);
}

#[test]
fn tick_wraparound_later_by_eight() {
    let a = Tick::new(5);
    let b = Tick::new((1u32 << 31) - 3);
    assert_eq!(a.diff(&b), 8);
    assert_eq!(b.diff(&a), -8);
    assert!(a.gt(&b));
    assert!(a.gte(&b));
    assert!(!b.gt(&a));
    assert!(!b.gte(&a));
}

#[test]
fn tick_diff_is_antisymmetric_on_samples() {
    let samples = [0u32, 1, 5, 1000, 0x3FFF_FFFF, 0x4000_0000, 0x7FFF_FFF0, 0x7FFF_FFFF];
    for &x in &samples {
        for &y in &samples {
            let a = Tick::new(x);
            let b = Tick::new(y);
            let d = a.diff(&b);
            if d != -(1 << 30) {
                assert_eq!(d, -b.diff(&a));
            }
            assert_eq!(a.gt(&b), d > 0);
            assert_eq!(a.gte(&b), d >= 0);
        }
    }
}

#[test]
fn tick_diff_at_half_circle() {
    let a = Tick::new(0);
    let b = Tick::new(1 << 30);
    assert_eq!(a.diff(&b), -(1 << 30));
    assert_eq!(b.diff(&a), -(1 << 30));
}

#[test]
fn tick_equal_values() {
    let a = Tick::new(77);
    assert_eq!(a.diff(&Tick::new(77)), 0);
    assert!(!a.gt(&Tick::new(77)));
    assert!(a.gte(&Tick::new(77)));
}

#[test]
fn tick_now_fits_31_bits() {
    assert!(Tick::now().value() < 0x8000_0000);
}
