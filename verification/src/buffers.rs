//! Per-reach inflow buffers.
//!
//! Each reach owns a buffer that accumulates the discharge series of
//! its parents, summed positionally with a caller-supplied addition.
//! The consumer reads the buffer head-first by index and treats missing
//! indices as zero.

use vstd::prelude::*;

verus! {

/// The buffer value at step `t`; a missing index reads as zero.
pub open spec fn buffer_at<V>(s: Seq<V>, t: int, zero: V) -> V {
    if 0 <= t < s.len() {
        s[t]
    } else {
        zero
    }
}

/// The accumulated upstream discharge series of one reach.
pub struct InflowBuffer<V> {
    pub values: Vec<V>,
}

impl<V: Copy> InflowBuffer<V> {
    pub fn new() -> (b: InflowBuffer<V>)
        ensures
            b.values@ == Seq::<V>::empty(),
    {
        InflowBuffer { values: Vec::new() }
    }

    /// Read the inflow at step `t`.
    pub fn get(&self, t: usize, zero: V) -> (r: V)
        ensures
            r == buffer_at(self.values@, t as int, zero),
    {
        if t < self.values.len() {
            self.values[t]
        } else {
            zero
        }
    }

    /// Add one parent's discharge series into the buffer, position by
    /// position. An empty buffer is first zero-filled to the length of
    /// the series; positions past the buffer's length are dropped.
    pub fn accumulate<F: Fn(V, V) -> V>(&mut self, series: &Vec<V>, zero: V, combine: &F)
        requires
            forall|a: (V, V)| #[trigger] call_requires(*combine, a),
        ensures
            final(self).values@.len() == if old(self).values@.len() == 0 {
                series@.len()
            } else {
                old(self).values@.len()
            },
            forall|t: int|
                0 <= t < final(self).values@.len() && t < series@.len()
                    ==> #[trigger] call_ensures(
                    *combine,
                    (buffer_at(old(self).values@, t, zero), series@[t]),
                    final(self).values@[t],
                ),
            forall|t: int|
                series@.len() <= t < final(self).values@.len()
                    ==> #[trigger] final(self).values@[t] == buffer_at(old(self).values@, t, zero),
    {
        let ghost base = old(self).values@;
        if self.values.len() == 0 {
            let mut k: usize = 0;
            while k < series.len()
                invariant
                    0 <= k <= series@.len(),
                    self.values@.len() == k,
                    forall|t: int| 0 <= t < k ==> #[trigger] self.values@[t] == zero,
                decreases series@.len() - k,
            {
                self.values.push(zero);
                k += 1;
            }
        }
        let len = self.values.len();
        let n = if series.len() < len {
            series.len()
        } else {
            len
        };
        proof {
            assert(forall|t: int|
                0 <= t < len ==> #[trigger] self.values@[t] == buffer_at(base, t, zero));
        }
        let ghost filled = self.values@;
        let mut i: usize = 0;
        while i < n
            invariant
                0 <= i <= n,
                n <= series@.len(),
                n <= len,
                len == self.values@.len(),
                len == filled.len(),
                forall|a: (V, V)| #[trigger] call_requires(*combine, a),
                forall|t: int|
                    0 <= t < i ==> #[trigger] call_ensures(
                        *combine,
                        (buffer_at(base, t, zero), series@[t]),
                        self.values@[t],
                    ),
                forall|t: int| i <= t < len ==> #[trigger] self.values@[t] == filled[t],
                forall|t: int|
                    0 <= t < len ==> #[trigger] filled[t] == buffer_at(base, t, zero),
            decreases n - i,
        {
            let merged = combine(self.values[i], series[i]);
            self.values.set(i, merged);
            i += 1;
        }
        proof {
            assert(n as int == if series@.len() < len {
                series@.len() as int
            } else {
                len as int
            });
        }
    }
}

} // verus!
