use vstd::prelude::*;
use std::cmp::Ordering;
use std::sync::atomic::AtomicUsize;
use std::sync::Arc;

verus! {

/// A counter that wraps around, compared along the shorter way round.
#[derive(Default, Debug, Copy, Clone, PartialEq, Eq, Structural)]
pub struct Serial(pub usize);

/// The counter after `x`: one more, and zero after the greatest.
pub open spec fn successor(x: usize) -> usize {
    if x == usize::MAX {
        0
    } else {
        (x + 1) as usize
    }
}

/// How far two counters are apart.
pub open spec fn distance(a: usize, b: usize) -> int {
    if a >= b {
        a - b
    } else {
        b - a
    }
}

/// How two counters stand to each other: as their numbers do while these are
/// less than half the range apart, the other way round beyond that.
pub open spec fn wrapped_order(a: usize, b: usize) -> Ordering {
    if (distance(a, b) < usize::MAX / 2) == (a < b) && a != b {
        Ordering::Less
    } else if a == b {
        Ordering::Equal
    } else {
        Ordering::Greater
    }
}

impl Serial {
    /// Steps to the next counter, wrapping around after the greatest.
    pub fn increment(&mut self)
        ensures
            final(self).0 == successor(old(self).0),
    {
        if self.0 == usize::MAX {
            self.0 = 0;
        } else {
            self.0 = self.0 + 1;
        }
    }
}

impl PartialOrd for Serial {
    fn partial_cmp(&self, other: &Self) -> (r: Option<Ordering>) {
        let a = self.0;
        let b = other.0;
        let d = if a >= b {
            a - b
        } else {
            b - a
        };
        if d < usize::MAX / 2 {
            if a < b {
                Some(Ordering::Less)
            } else if a == b {
                Some(Ordering::Equal)
            } else {
                Some(Ordering::Greater)
            }
        } else {
            if b < a {
                Some(Ordering::Less)
            } else if a == b {
                Some(Ordering::Equal)
            } else {
                Some(Ordering::Greater)
            }
        }
    }
}

impl vstd::std_specs::cmp::PartialOrdSpecImpl for Serial {
    open spec fn obeys_partial_cmp_spec() -> bool {
        true
    }

    open spec fn partial_cmp_spec(&self, other: &Serial) -> Option<Ordering> {
        Some(wrapped_order(self.0, other.0))
    }
}

/// A shared cell that holds the counter that was set last.
#[derive(Default, Debug, Clone)]
pub struct AtomicSetSerial(pub(crate) Arc<AtomicUsize>);

impl AtomicSetSerial {
    /// Stores a counter for every holder of the cell to see.
    pub fn set(&self, serial: Serial) {
        self.0.store(serial.0, std::sync::atomic::Ordering::Relaxed);
    }

    /// The counter that some holder of the cell stored last.
    pub fn get(&self) -> Serial {
        Serial(self.0.load(std::sync::atomic::Ordering::Relaxed))
    }
}

/// A shared source of counters.
#[derive(Default, Debug, Clone)]
pub struct AtomicSerialProvider(pub(crate) Arc<AtomicUsize>);

impl AtomicSerialProvider {
    /// Takes the next counter from the source: the successor of what the
    /// source held at that moment.
    pub fn next(&self) -> Serial {
        let before = self.0.fetch_add(1, std::sync::atomic::Ordering::Relaxed);
        let mut s = Serial(before);
        s.increment();
        s
    }
}

} // verus!
