use vstd::prelude::*;

verus! {

/// The farthest a back-reference may reach: 32 KiB.
pub const MAX_DISTANCE: u16 = 32768;

/// The window holds three times the maximum distance: 96 KiB.
pub const WINDOW_SIZE: usize = 3 * 32768;

/// A 96 KiB buffer with a write cursor. Bytes below the cursor are the
/// decoded history a back-reference may read; bytes at and beyond it form
/// the write region, which after any `slide` holds at least 64 KiB.
pub struct SlidingWindow {
    pub data: Vec<u8>,
    pub cur: usize,
}

impl SlidingWindow {
    /// The write cursor.
    pub open spec fn cur(self) -> int {
        self.cur as int
    }

    pub open spec fn wf(self) -> bool {
        &&& self.data@.len() == WINDOW_SIZE
        &&& 0 <= self.cur() <= MAX_DISTANCE as int
    }

    pub fn new() -> (r: Self)
        ensures
            r.wf(),
            r.cur() == 0,
            r.data@ == Seq::new(WINDOW_SIZE as nat, |i: int| 0u8),
    {
        let data = vec![0u8; WINDOW_SIZE];
        proof {
            assert(data@ =~= Seq::new(WINDOW_SIZE as nat, |i: int| 0u8));
        }
        SlidingWindow { data, cur: 0 }
    }

    /// The whole window.
    pub fn buffer(&self) -> (r: &Vec<u8>)
        ensures
            r@ == self.data@,
    {
        &self.data
    }

    /// A copy of the first `n` bytes of the write region: what the last
    /// decode step placed there before the window slides.
    pub fn write_buffer(&self, n: usize) -> (r: Vec<u8>)
        requires
            self.wf(),
            self.cur() + n <= self.data@.len(),
        ensures
            r@ == self.data@.subrange(self.cur(), self.cur() + n),
    {
        let mut out: Vec<u8> = Vec::new();
        let mut i: usize = 0;
        while i < n
            invariant
                self.wf(),
                i <= n,
                self.cur as int + n <= self.data@.len(),
                out@ == self.data@.subrange(self.cur as int, self.cur as int + i),
            decreases n - i,
        {
            out.push(self.data[self.cur + i]);
            i = i + 1;
            proof {
                assert(out@ =~= self.data@.subrange(self.cur as int, self.cur as int + i));
            }
        }
        out
    }

    /// The index where the next data is written.
    pub fn boundary(&self) -> (r: usize)
        ensures
            r == self.cur(),
    {
        self.cur
    }

    /// Advance the cursor by `n`. If it would pass 32 KiB, the most recent
    /// 32 KiB of data is moved down to the start of the window and the
    /// cursor is set there, so that the history below the cursor is kept
    /// and the write region holds at least 64 KiB again.
    pub fn slide(&mut self, n: usize)
        requires
            old(self).wf(),
            old(self).cur() + n <= old(self).data@.len(),
        ensures
            final(self).wf(),
            final(self).data@.len() == old(self).data@.len(),
            ({
                let end = old(self).cur() + n;
                if end <= MAX_DISTANCE as int {
                    &&& final(self).cur() == end
                    &&& final(self).data@ == old(self).data@
                } else {
                    &&& final(self).cur() == MAX_DISTANCE as int
                    &&& final(self).data@.subrange(0, MAX_DISTANCE as int) == old(
                        self,
                    ).data@.subrange(end - MAX_DISTANCE as int, end)
                    &&& final(self).data@.skip(MAX_DISTANCE as int) == old(self).data@.skip(
                        MAX_DISTANCE as int,
                    )
                }
            }),
    {
        let end = self.cur + n;
        let max_d = MAX_DISTANCE as usize;
        if end > max_d {
            let delta = end - max_d;
            let ghost orig = self.data@;
            let mut i: usize = 0;
            while i < max_d
                invariant
                    max_d == MAX_DISTANCE as int,
                    self.data@.len() == WINDOW_SIZE,
                    delta + max_d == end <= WINDOW_SIZE,
                    i <= max_d,
                    delta >= 1,
                    forall|j: int| 0 <= j < i ==> self.data@[j] == orig[delta + j],
                    forall|j: int| i <= j < WINDOW_SIZE ==> self.data@[j] == orig[j],
                decreases max_d - i,
            {
                let b = self.data[delta + i];
                self.data[i] = b;
                i = i + 1;
            }
            self.cur = max_d;
            proof {
                assert(self.data@.subrange(0, MAX_DISTANCE as int) =~= orig.subrange(
                    end - MAX_DISTANCE as int,
                    end as int,
                ));
                assert(self.data@.skip(MAX_DISTANCE as int) =~= orig.skip(MAX_DISTANCE as int));
            }
        } else {
            self.cur = end;
        }
    }
}

} // verus!
