//! Flip counts of the whole fleet, one counter per device.
use vstd::prelude::*;

verus! {

/// The flips counted for each configured device, by its index.
pub struct ScanStatistics {
    counts: Vec<u64>,
}

impl View for ScanStatistics {
    type V = Seq<u64>;

    closed spec fn view(&self) -> Seq<u64> {
        self.counts@
    }
}

impl ScanStatistics {
    /// A counter at zero for each of `devices` devices.
    pub fn new(devices: usize) -> (r: ScanStatistics)
        ensures
            r@ == Seq::new(devices as nat, |i: int| 0u64),
    {
        let mut counts: Vec<u64> = Vec::new();
        let mut i: usize = 0;
        while i < devices
            invariant
                i <= devices,
                counts@ == Seq::new(i as nat, |j: int| 0u64),
            decreases devices - i,
        {
            counts.push(0);
            i = i + 1;
            assert(counts@ =~= Seq::new(i as nat, |j: int| 0u64));
        }
        ScanStatistics { counts }
    }

    /// The number of devices counted.
    pub fn len(&self) -> (r: usize)
        ensures
            r as nat == self@.len(),
    {
        self.counts.len()
    }

    /// The flips counted for device `index`.
    pub fn get(&self, index: usize) -> (r: u64)
        requires
            index < self@.len(),
        ensures
            r == self@[index as int],
    {
        self.counts[index]
    }

    /// Adds `flips` to the counter of device `index` (up to the largest
    /// `u64`). No other counter changes.
    pub fn add(&mut self, index: usize, flips: u64)
        requires
            index < old(self)@.len(),
        ensures
            final(self)@ == old(self)@.update(
                index as int,
                old(self)@[index as int].saturating_add(flips),
            ),
    {
        let c = self.counts[index].saturating_add(flips);
        self.counts[index] = c;
    }
}

} // verus!
