//! A circular stack that keeps the six most recent board snapshots.

use vstd::prelude::*;

verus! {

/// Copies a 368-byte snapshot row.
pub fn copy_row(src: &Vec<u8>) -> (r: Vec<u8>)
    ensures
        r@ == src@,
{
    let mut r: Vec<u8> = Vec::new();
    let mut i: usize = 0;
    while i < src.len()
        invariant
            r@.len() == i,
            i <= src@.len(),
            forall|j: int| 0 <= j < i ==> r@[j] == src@[j],
        decreases src@.len() - i,
    {
        r.push(src[i]);
        i += 1;
    }
    assert(r@ =~= src@);
    r
}

/// Stack of the six most recent pushed snapshots, oldest overwritten first.
pub struct CircularBuf {
    pub position: usize,
    pub buf: Vec<Vec<u8>>,
}

/// Walks the snapshots of a `CircularBuf`, most recent first.
pub struct CircularIterator {
    pub count: usize,
    pub position: usize,
    pub buf: Vec<Vec<u8>>,
}

impl CircularBuf {
    pub open spec fn wf(&self) -> bool {
        &&& self.position < 6
        &&& self.buf@.len() == 6
        &&& forall|i: int| 0 <= i < 6 ==> (#[trigger] self.buf@[i])@.len() == 368
    }

    /// The `k`-th most recent snapshot (0 is the newest).
    pub open spec fn snapshot(&self, k: int) -> Seq<u8> {
        self.buf@[((self.position as int) + 5 - k) % 6]@
    }

    /// A stack of six all-zero snapshots.
    pub fn new() -> (r: CircularBuf)
        ensures
            r.wf(),
            r.position == 0,
            forall|k: int, j: int| 0 <= k < 6 && 0 <= j < 368 ==> r.snapshot(k)[j] == 0,
    {
        let mut buf: Vec<Vec<u8>> = Vec::new();
        let mut i: usize = 0;
        while i < 6
            invariant
                buf@.len() == i,
                i <= 6,
                forall|k: int| 0 <= k < i ==> (#[trigger] buf@[k])@.len() == 368 && forall|j: int|
                    0 <= j < 368 ==> buf@[k]@[j] == 0,
            decreases 6 - i,
        {
            let mut row: Vec<u8> = Vec::new();
            let mut j: usize = 0;
            while j < 368
                invariant
                    row@.len() == j,
                    j <= 368,
                    forall|x: int| 0 <= x < j ==> row@[x] == 0,
                decreases 368 - j,
            {
                row.push(0);
                j += 1;
            }
            buf.push(row);
            i += 1;
        }
        CircularBuf { position: 0, buf }
    }

    /// Adds another snapshot to this stack.
    pub fn push(&mut self, snapshot: &Vec<u8>)
        requires
            old(self).wf(),
            snapshot@.len() == 368,
        ensures
            final(self).wf(),
            final(self).snapshot(0) == snapshot@,
            forall|k: int| 1 <= k < 6 ==> final(self).snapshot(k) == old(self).snapshot(k - 1),
    {
        let row = copy_row(snapshot);
        let pos = self.position;
        self.buf.set(pos, row);
        self.position = if pos == 5 {
            0
        } else {
            pos + 1
        };
        proof {
            let p = pos as int;
            let q = self.position as int;
            assert(q == (p + 1) % 6);
            assert((q + 5) % 6 == p);
        }
    }

    /// The `k`-th most recent snapshot, 0 being the one pushed last.
    pub fn nth_recent(&self, k: usize) -> (r: &Vec<u8>)
        requires
            self.wf(),
            k < 6,
        ensures
            r@ == self.snapshot(k as int),
    {
        let slot = (self.position + 11 - k) % 6;
        assert(slot == ((self.position as int) + 5 - (k as int)) % 6) by {
            let p = self.position as int;
            let kk = k as int;
            assert((p + 11 - kk) % 6 == (p + 5 - kk) % 6) by (nonlinear_arith)
                requires
                    0 <= p < 6,
                    0 <= kk < 6,
            ;
        }
        &self.buf[slot]
    }

    /// Returns an iterator over all snapshots in the stack starting with the
    /// most recent one, and going backward in time.
    pub fn iter(&self) -> (r: CircularIterator)
        requires
            self.wf(),
        ensures
            r.wf(),
            r.count == 0,
            r.position == ((self.position as int) + 5) % 6,
            forall|i: int| 0 <= i < 6 ==> (#[trigger] r.buf@[i])@ == self.buf@[i]@,
    {
        let mut rows: Vec<Vec<u8>> = Vec::new();
        let mut i: usize = 0;
        while i < 6
            invariant
                self.wf(),
                rows@.len() == i,
                i <= 6,
                forall|j: int| 0 <= j < i ==> (#[trigger] rows@[j])@ == self.buf@[j]@,
            decreases 6 - i,
        {
            rows.push(copy_row(&self.buf[i]));
            i += 1;
        }
        let position = if self.position == 0 {
            5
        } else {
            self.position - 1
        };
        assert(position == ((self.position as int) + 5) % 6);
        CircularIterator { count: 0, position, buf: rows }
    }
}

impl CircularIterator {
    pub open spec fn wf(&self) -> bool {
        &&& self.position < 6
        &&& self.buf@.len() == 6
        &&& forall|i: int| 0 <= i < 6 ==> (#[trigger] self.buf@[i])@.len() == 368
    }

    /// The next older snapshot, or `None` after all six were returned.
    pub fn next(&mut self) -> (r: Option<Vec<u8>>)
        requires
            old(self).wf(),
        ensures
            final(self).wf(),
            final(self).buf@ == old(self).buf@,
            old(self).count >= 6 ==> r is None && *final(self) == *old(self),
            old(self).count < 6 ==> {
                &&& final(self).count == old(self).count + 1
                &&& final(self).position == ((old(self).position as int) + 5) % 6
                &&& r matches Some(row) && row@ == old(self).buf@[old(self).position as int]@
            },
    {
        if self.count >= 6 {
            None
        } else {
            let row = copy_row(&self.buf[self.position]);
            self.position = if self.position == 0 {
                5
            } else {
                self.position - 1
            };
            self.count += 1;
            Some(row)
        }
    }
}

impl Clone for CircularBuf {
    fn clone(&self) -> (r: CircularBuf)
        ensures
            r.position == self.position,
            r.buf@.len() == self.buf@.len(),
            forall|i: int| 0 <= i < self.buf@.len() ==> (#[trigger] r.buf@[i])@ == self.buf@[i]@,
    {
        let mut rows: Vec<Vec<u8>> = Vec::new();
        let mut i: usize = 0;
        while i < self.buf.len()
            invariant
                rows@.len() == i,
                i <= self.buf@.len(),
                forall|j: int| 0 <= j < i ==> (#[trigger] rows@[j])@ == self.buf@[j]@,
            decreases self.buf@.len() - i,
        {
            rows.push(copy_row(&self.buf[i]));
            i += 1;
        }
        CircularBuf { position: self.position, buf: rows }
    }
}

} // verus!
