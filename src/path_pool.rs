use vstd::prelude::*;

verus! {

/// A bounded first-in first-out store of path buffers, for reuse instead of
/// fresh allocation. `capacity` is the number of buffers it was made with,
/// and the most it takes back.
pub struct PathPool {
    pub pool: std::collections::VecDeque<Vec<usize>>,
    pub capacity: usize,
}

impl PathPool {
    /// A pool that holds `capacity` buffers of `path_length` zeros.
    pub fn new(capacity: usize, path_length: usize) -> (r: Self)
        ensures
            r.capacity == capacity,
            r.pool@.len() == capacity,
            forall|i: int| 0 <= i < capacity ==> (#[trigger] r.pool@[i])@ == Seq::new(path_length as nat, |j: int| 0usize),
    {
        let mut pool: std::collections::VecDeque<Vec<usize>> = std::collections::VecDeque::with_capacity(capacity);
        let mut k: usize = 0;
        while k < capacity
            invariant
                k <= capacity,
                pool@.len() == k,
                forall|i: int| 0 <= i < k ==> (#[trigger] pool@[i])@ == Seq::new(path_length as nat, |j: int| 0usize),
            decreases capacity - k,
        {
            let mut buf: Vec<usize> = Vec::new();
            let mut j: usize = 0;
            while j < path_length
                invariant
                    j <= path_length,
                    buf@ == Seq::new(j as nat, |j: int| 0usize),
                decreases path_length - j,
            {
                buf.push(0);
                j = j + 1;
                assert(buf@ =~= Seq::new(j as nat, |j: int| 0usize));
            }
            pool.push_back(buf);
            k = k + 1;
        }
        PathPool { pool, capacity }
    }

    /// Takes the oldest buffer out of the pool, if there is one.
    pub fn get(&mut self) -> (r: Option<Vec<usize>>)
        ensures
            final(self).capacity == old(self).capacity,
            old(self).pool@.len() == 0 ==> r.is_none() && final(self).pool@ == old(self).pool@,
            old(self).pool@.len() > 0 ==> r == Some(old(self).pool@[0]) && final(self).pool@
                == old(self).pool@.drop_first(),
    {
        let r = self.pool.pop_front();
        assert(old(self).pool@.len() > 0 ==> self.pool@ =~= old(self).pool@.drop_first());
        r
    }

    /// Empties `path` and puts it back at the end of the pool, unless the pool
    /// already holds `capacity` buffers, in which case the buffer is dropped.
    pub fn return_path(&mut self, path: Vec<usize>)
        ensures
            final(self).capacity == old(self).capacity,
            old(self).pool@.len() < old(self).capacity ==> {
                &&& final(self).pool@.len() == old(self).pool@.len() + 1
                &&& final(self).pool@.drop_last() == old(self).pool@
                &&& final(self).pool@.last()@.len() == 0
            },
            old(self).pool@.len() >= old(self).capacity ==> final(self).pool@ == old(self).pool@,
    {
        let mut path = path;
        path.clear();
        if self.pool.len() < self.capacity {
            self.pool.push_back(path);
            assert(self.pool@.drop_last() =~= old(self).pool@);
        }
    }
}

} // verus!
