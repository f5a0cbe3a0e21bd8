//! A bounded, insertion-ordered set of the eight most recent 64-bit hashes.
//!
//! Used as the superko history: pushing a ninth hash evicts the oldest one.

use vstd::prelude::*;

verus! {

/// Ring buffer of the eight most recently pushed hashes.
pub struct SmallSet {
    pub buf: Vec<u64>,
    pub count: usize,
}

impl SmallSet {
    pub open spec fn wf(&self) -> bool {
        self.buf@.len() == 8
    }

    /// Whether `x` is one of the stored hashes.
    pub open spec fn spec_contains(&self, x: u64) -> bool {
        exists|i: int| 0 <= i < 8 && self.buf@[i] == x
    }

    /// The stored hashes ordered newest first.
    pub open spec fn recent_seq(&self) -> Seq<u64> {
        Seq::new(8, |k: int| self.buf@[((self.count as int) + 7 - k) % 8])
    }

    /// The history as a sequence: the eight stored hashes newest first on
    /// a well-formed set, the raw storage otherwise.
    pub open spec fn history_seq(&self) -> Seq<u64> {
        if self.buf@.len() == 8 {
            self.recent_seq()
        } else {
            self.buf@
        }
    }

    /// An empty history; the eight slots report hash 0.
    pub fn new() -> (r: SmallSet)
        ensures
            r.wf(),
            r.count == 0,
            forall|i: int| 0 <= i < 8 ==> r.buf@[i] == 0,
    {
        let mut buf: Vec<u64> = Vec::new();
        let mut i: usize = 0;
        while i < 8
            invariant
                buf@.len() == i,
                i <= 8,
                forall|j: int| 0 <= j < i ==> buf@[j] == 0,
            decreases 8 - i,
        {
            buf.push(0);
            i += 1;
        }
        SmallSet { buf, count: 0 }
    }

    /// Records another hash, evicting the oldest once eight are held.
    pub fn push(&mut self, value: u64)
        requires
            old(self).wf(),
            old(self).count < usize::MAX,
        ensures
            final(self).wf(),
            final(self).count == old(self).count + 1,
            final(self).buf@ == old(self).buf@.update(((old(self).count as int) % 8), value),
            final(self).spec_contains(value),
    {
        let slot = self.count % 8;
        self.buf.set(slot, value);
        self.count = self.count + 1;
        assert(self.buf@[(old(self).count as int) % 8] == value);
    }

    /// Whether `other` matches one of the stored hashes.
    pub fn contains(&self, other: u64) -> (r: bool)
        requires
            self.wf(),
        ensures
            r == self.spec_contains(other),
    {
        let mut i: usize = 0;
        while i < 8
            invariant
                self.wf(),
                i <= 8,
                forall|j: int| 0 <= j < i ==> self.buf@[j] != other,
            decreases 8 - i,
        {
            if self.buf[i] == other {
                return true;
            }
            i += 1;
        }
        false
    }

    /// The `k`-th most recent stored hash (0 is the newest slot).
    pub fn recent(&self, k: usize) -> (r: u64)
        requires
            self.wf(),
            k < 8,
        ensures
            r == self.recent_seq()[k as int],
    {
        let slot = (self.count % 8 + 7 - k % 8) % 8;
        assert(slot == ((self.count as int) + 7 - (k as int)) % 8) by {
            let c = self.count as int;
            let kk = k as int;
            assert(kk % 8 == kk);
            assert((c % 8 + 7 - kk) % 8 == (c + 7 - kk) % 8) by (nonlinear_arith)
                requires
                    0 <= c,
                    0 <= kk < 8,
            ;
        }
        self.buf[slot]
    }

    /// Whether the two histories hold the same hashes in the same order.
    pub fn same_history(&self, other: &SmallSet) -> (r: bool)
        requires
            self.wf(),
            other.wf(),
        ensures
            r == (self.recent_seq() =~= other.recent_seq()),
    {
        let mut k: usize = 0;
        while k < 8
            invariant
                self.wf(),
                other.wf(),
                k <= 8,
                forall|j: int| 0 <= j < k ==> self.recent_seq()[j] == other.recent_seq()[j],
            decreases 8 - k,
        {
            if self.recent(k) != other.recent(k) {
                assert(self.recent_seq()[k as int] != other.recent_seq()[k as int]);
                return false;
            }
            k += 1;
        }
        true
    }
}

impl Clone for SmallSet {
    fn clone(&self) -> (r: SmallSet)
        ensures
            r.buf@ == self.buf@,
            r.count == self.count,
    {
        let mut buf: Vec<u64> = Vec::new();
        let mut i: usize = 0;
        while i < self.buf.len()
            invariant
                buf@.len() == i,
                i <= self.buf@.len(),
                forall|j: int| 0 <= j < i ==> buf@[j] == self.buf@[j],
            decreases self.buf@.len() - i,
        {
            buf.push(self.buf[i]);
            i += 1;
        }
        assert(buf@ =~= self.buf@);
        SmallSet { buf, count: self.count }
    }
}

} // verus!
