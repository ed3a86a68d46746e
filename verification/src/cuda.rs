//! A placeholder for a CUDA device.

use vstd::prelude::*;

verus! {

/// Elements that the device returns per token.
pub const WIDTH: usize = 128;

#[derive(Debug, Clone, Copy, PartialEq, Eq)]
pub struct CudaBackend {
    pub device_id: u32,
}

impl CudaBackend {
    pub fn new(device_id: u32) -> (b: Self)
        ensures
            b.device_id == device_id,
    {
        CudaBackend { device_id }
    }

    /// Which of `n` tokens each of the `n * WIDTH` elements of a pass comes from.
    pub fn sources(&self, n: usize) -> (out: Vec<usize>)
        requires
            n * WIDTH <= usize::MAX,
        ensures
            out@.len() == n * WIDTH,
            forall|i: int| 0 <= i < out@.len() ==> #[trigger] out@[i] == i % (n as int),
    {
        let mut out: Vec<usize> = Vec::new();
        let mut i: usize = 0;
        while i < n * WIDTH
            invariant
                n * WIDTH <= usize::MAX,
                i <= n * WIDTH,
                out@.len() == i,
                forall|j: int| 0 <= j < out@.len() ==> #[trigger] out@[j] == j % (n as int),
            decreases n * WIDTH - i,
        {
            out.push(i % n);
            i += 1;
        }
        out
    }
}

} // verus!
