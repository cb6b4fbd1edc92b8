//! Strongly typed scalars: bandwidth in bits per second, sizes in bytes and
//! times in nanoseconds.

use vstd::prelude::*;

verus! {

/// The number of nanoseconds in a second.
pub const NANOS_PER_SEC: u64 = 1_000_000_000;

/// A size in bytes.
#[derive(Debug, Default, Copy, Clone, PartialOrd, Ord, PartialEq, Eq, Structural, Hash)]
pub struct Bytes(pub u64);

/// A duration or a point in time, in nanoseconds.
#[derive(Debug, Default, Copy, Clone, PartialOrd, Ord, PartialEq, Eq, Structural, Hash)]
pub struct Nanosecs(pub u64);

/// A bandwidth in bits per second.
#[derive(Debug, Default, Copy, Clone, PartialOrd, Ord, PartialEq, Eq, Structural, Hash)]
pub struct BitsPerSec(pub u64);

/// A bandwidth in gigabits per second.
#[derive(Debug, Default, Copy, Clone, PartialOrd, Ord, PartialEq, Eq, Structural, Hash)]
pub struct Gbps(pub u64);

/// The value of `x` cut off at the largest `u64`.
pub open spec fn saturate(x: int) -> u64 {
    if x <= 0 {
        0
    } else if x >= u64::MAX {
        u64::MAX
    } else {
        x as u64
    }
}

/// The quotient `num / den` rounded to the nearest integer, halves upwards.
pub open spec fn div_round(num: int, den: int) -> int
    recommends
        den > 0,
{
    (2 * num + den) / (2 * den)
}

/// The number of packets that carry `size` bytes of payload.
pub open spec fn packets_of(size: int) -> int {
    (size + 999) / 1000
}

impl Bytes {
    /// The quantity of `value` units.
    pub fn new(value: u64) -> (r: Self)
        ensures
            r == Bytes(value),
    {
        Bytes(value)
    }

    /// The number of units.
    pub fn into_u64(self) -> (r: u64)
        ensures
            r == self.0,
    {
        self.0
    }

    /// The number of packets needed for this many bytes of payload: the size
    /// divided by the largest payload, rounded up.
    pub fn nr_packets(self) -> (r: u64)
        ensures
            r == packets_of(self.0 as int),
    {
        let q: u64 = self.0 / 1000;
        if self.0 % 1000 == 0 {
            q
        } else {
            q + 1
        }
    }
}

impl Nanosecs {
    /// The quantity of `value` units.
    pub fn new(value: u64) -> (r: Self)
        ensures
            r == Nanosecs(value),
    {
        Nanosecs(value)
    }

    /// The number of units.
    pub fn into_u64(self) -> (r: u64)
        ensures
            r == self.0,
    {
        self.0
    }
}

impl Gbps {
    /// The quantity of `value` units.
    pub fn new(value: u64) -> (r: Self)
        ensures
            r == Gbps(value),
    {
        Gbps(value)
    }

    /// The number of units.
    pub fn into_u64(self) -> (r: u64)
        ensures
            r == self.0,
    {
        self.0
    }
}

impl BitsPerSec {
    /// The quantity of `value` units.
    pub fn new(value: u64) -> (r: Self)
        ensures
            r == BitsPerSec(value),
    {
        BitsPerSec(value)
    }

    /// The number of units.
    pub fn into_u64(self) -> (r: u64)
        ensures
            r == self.0,
    {
        self.0
    }

    /// The time it takes to put `size` bytes on a line of this bandwidth, as a
    /// mathematical integer: bits times nanoseconds per second over the
    /// bandwidth, rounded to the nearest nanosecond. A line without
    /// bandwidth takes no time for no bytes and the largest time for any.
    pub open spec fn spec_length(self, size: Bytes) -> int {
        if self.0 == 0 {
            if size.0 == 0 {
                0
            } else {
                u64::MAX as int
            }
        } else {
            div_round(size.0 * 8 * NANOS_PER_SEC, self.0 as int)
        }
    }

    /// The time it takes to transmit `size` bytes, cut off at the largest
    /// representable time.
    pub fn length(&self, size: Bytes) -> (r: Nanosecs)
        ensures
            r.0 == saturate(self.spec_length(size)),
    {
        if self.0 == 0 {
            return if size.0 == 0 {
                Nanosecs(0)
            } else {
                Nanosecs(u64::MAX)
            };
        }
        let bits: u128 = (size.0 as u128) * 8;
        let num: u128 = bits * 1_000_000_000;
        let den: u128 = self.0 as u128;
        let q: u128 = (2 * num + den) / (2 * den);
        if q > u64::MAX as u128 {
            Nanosecs(u64::MAX)
        } else {
            Nanosecs(q as u64)
        }
    }

    /// This bandwidth times `factor`, cut off at the largest representable
    /// bandwidth.
    pub fn scale_by(self, factor: u64) -> (r: Self)
        ensures
            r.0 == saturate(self.0 * factor),
    {
        assert(self.0 * factor <= 0xffff_ffff_ffff_ffff * 0xffff_ffff_ffff_ffff) by (nonlinear_arith)
            requires
                self.0 <= 0xffff_ffff_ffff_ffff,
                factor <= 0xffff_ffff_ffff_ffff,
        ;
        let p: u128 = (self.0 as u128) * (factor as u128);
        if p > u64::MAX as u128 {
            BitsPerSec(u64::MAX)
        } else {
            BitsPerSec(p as u64)
        }
    }
}

impl From<Gbps> for BitsPerSec {
    fn from(val: Gbps) -> (r: BitsPerSec) {
        BitsPerSec(val.0).scale_by(NANOS_PER_SEC)
    }
}

impl vstd::std_specs::convert::FromSpecImpl<Gbps> for BitsPerSec {
    open spec fn obeys_from_spec() -> bool {
        true
    }

    open spec fn from_spec(val: Gbps) -> BitsPerSec {
        BitsPerSec(saturate(val.0 * NANOS_PER_SEC))
    }
}

} // verus!
