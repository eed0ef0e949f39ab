//! A 31-bit wrapping tick counter (10 ms resolution) with a comparison that
//! stays correct across wraparound.
use vstd::prelude::*;

verus! {

/// The signed circular distance from `b` to `a`, in `[-2^30, 2^30)`.
pub open spec fn tick_diff(a: int, b: int) -> int {
    (a - b + 0x4000_0000) % 0x8000_0000 - 0x4000_0000
}

/// The tick that a wall-clock reading of `ms` milliseconds maps to.
pub open spec fn tick_of_millis(ms: int) -> int {
    (ms / 10) % 0x1_0000_0000 % 0x8000_0000
}

/// A point in time, in units of 10 ms, kept modulo 2^31.
#[derive(Clone, Copy)]
pub struct Tick {
    value: u32,
}

impl View for Tick {
    type V = int;

    closed spec fn view(&self) -> int {
        self.value as int
    }
}

impl Tick {
    #[verifier::type_invariant]
    spec fn inv(self) -> bool {
        self.value < 0x8000_0000
    }

    /// The tick for the current wall-clock time; tick 0 when the system
    /// clock reads earlier than the Unix epoch.
    pub fn now() -> (r: Tick)
        ensures
            0 <= r@ < 0x8000_0000,
    {
        match epoch_elapsed() {
            Some(d) => Tick::from_millis(duration_millis(&d)),
            None => Tick::new(0),
        }
    }

    /// The tick for a wall-clock reading of `ms` milliseconds since the epoch.
    pub fn from_millis(ms: u128) -> (r: Tick)
        ensures
            r@ == tick_of_millis(ms as int),
    {
        let t = (ms / 10) as u32;
        proof {
            assert((ms / 10) as u32 == (ms / 10) % 0x1_0000_0000) by (bit_vector);
        }
        Tick::new(t)
    }

    /// The tick whose value is `value` with its top bit cleared.
    pub fn new(value: u32) -> (r: Tick)
        ensures
            r@ == value % 0x8000_0000,
    {
        let v = value & 0x7FFF_FFFF;
        assert(value & 0x7FFF_FFFF == value % 0x8000_0000) by (bit_vector);
        Tick { value: v }
    }

    /// Signed ticks elapsed from `other` to `self`, correct across wraparound.
    pub fn diff(&self, other: &Tick) -> (r: i32)
        ensures
            r == tick_diff(self@, other@),
    {
        proof {
            use_type_invariant(self);
            use_type_invariant(other);
        }
        let a = self.value;
        let b = other.value;
        let first: i32 = (a << 1u32) as i32;
        let second: i32 = (b << 1u32) as i32;
        let r = first.wrapping_sub(second) >> 1u32;
        proof {
            lemma_diff_bits(a, b);
        }
        r
    }

    /// Whether `self` is strictly later than `other`.
    pub fn gt(&self, other: &Tick) -> (r: bool)
        ensures
            r == (tick_diff(self@, other@) > 0),
    {
        self.diff(other) > 0
    }

    /// Whether `self` is later than or equal to `other`.
    pub fn gte(&self, other: &Tick) -> (r: bool)
        ensures
            r == (tick_diff(self@, other@) >= 0),
    {
        self.diff(other) >= 0
    }

    /// The raw tick value.
    pub fn value(&self) -> (r: u32)
        ensures
            r == self@,
            r < 0x8000_0000,
    {
        proof {
            use_type_invariant(self);
        }
        self.value
    }
}

proof fn lemma_diff_bits(a: u32, b: u32)
    requires
        a < 0x8000_0000,
        b < 0x8000_0000,
    ensures
        (((a << 1u32) as i32).wrapping_sub((b << 1u32) as i32) >> 1u32) as int == tick_diff(a as int, b as int),
{
    let d = a.wrapping_sub(b) & 0x7FFF_FFFF;
    let r = ((a << 1u32) as i32).wrapping_sub((b << 1u32) as i32) >> 1u32;
    assert(d >= 0x4000_0000 ==> r == d - 0x8000_0000) by (bit_vector)
        requires
            d == a.wrapping_sub(b) & 0x7FFF_FFFF,
            r == ((a << 1u32) as i32).wrapping_sub((b << 1u32) as i32) >> 1u32,
    ;
    assert(d < 0x4000_0000 ==> r == d) by (bit_vector)
        requires
            d == a.wrapping_sub(b) & 0x7FFF_FFFF,
            r == ((a << 1u32) as i32).wrapping_sub((b << 1u32) as i32) >> 1u32,
    ;
    assert(d == (a - b) % 0x8000_0000) by (bit_vector)
        requires
            d == a.wrapping_sub(b) & 0x7FFF_FFFF,
    ;
}

/// Two ticks less than 2^30 apart on the circle compare consistently in both
/// directions: the distance from `a` to `b` is the negation of the distance
/// from `b` to `a`, so exactly one of them is later unless they are equal.
pub proof fn lemma_tick_diff_antisymmetric(a: int, b: int)
    requires
        0 <= a < 0x8000_0000,
        0 <= b < 0x8000_0000,
        tick_diff(a, b) != -0x4000_0000,
    ensures
        tick_diff(a, b) == -tick_diff(b, a),
        tick_diff(a, b) > 0 <==> tick_diff(b, a) < 0,
        tick_diff(a, b) == 0 <==> a == b,
{
}

/// Relies on `SystemTime::elapsed` on `UNIX_EPOCH`: the time since the epoch,
/// or nothing when the system clock reads earlier than the epoch.
#[verifier::external_body]
fn epoch_elapsed() -> Option<std::time::Duration> {
    std::time::UNIX_EPOCH.elapsed().ok()
}

/// Relies on `Duration::as_millis`: the whole milliseconds of a duration.
#[verifier::external_body]
fn duration_millis(d: &std::time::Duration) -> u128 {
    d.as_millis()
}

} // verus!
