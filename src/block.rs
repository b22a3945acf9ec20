use vstd::prelude::*;

verus! {

/// The contents of a block, slot by slot.
pub open spec fn rows(block: Seq<Vec<u8>>) -> Seq<Seq<u8>> {
    block.map_values(|r: Vec<u8>| r@)
}

/// Copies `src` over `dst`, which has its length.
pub(crate) fn copy_payload(dst: &mut Vec<u8>, src: &[u8])
    requires
        old(dst)@.len() == src@.len(),
    ensures
        final(dst)@ == src@,
{
    let n = src.len();
    let mut j: usize = 0;
    while j < n
        invariant
            n == src@.len(),
            dst@.len() == n,
            0 <= j <= n,
            forall|k: int| 0 <= k < j ==> dst@[k] == src@[k],
        decreases n - j,
    {
        dst.set(j, src[j]);
        j += 1;
    }
    assert(dst@ =~= src@);
}

/// Makes and recycles the blocks that travel between the capture and its consumer.
pub struct PayloadRecycle {
    payload_size: usize,
    block_size: usize,
}

impl PayloadRecycle {
    /// A maker of blocks of `block_size` payloads of `payload_size` bytes.
    pub fn new(payload_size: usize, block_size: usize) -> (r: PayloadRecycle)
        ensures
            r.payload_size() == payload_size,
            r.block_size() == block_size,
    {
        PayloadRecycle { payload_size, block_size }
    }

    pub closed spec fn payload_size(&self) -> nat {
        self.payload_size as nat
    }

    pub closed spec fn block_size(&self) -> nat {
        self.block_size as nat
    }

    /// A new block, all zero bytes.
    pub fn new_element(&self) -> (r: Vec<Vec<u8>>)
        ensures
            r@.len() == self.block_size(),
            forall|i: int|
                0 <= i < self.block_size() ==> #[trigger] rows(r@)[i] == Seq::new(
                    self.payload_size(),
                    |k: int| 0u8,
                ),
    {
        let mut block: Vec<Vec<u8>> = Vec::with_capacity(self.block_size);
        let mut i: usize = 0;
        while i < self.block_size
            invariant
                0 <= i <= self.block_size,
                block@.len() == i,
                forall|j: int|
                    0 <= j < i ==> #[trigger] rows(block@)[j] == Seq::new(
                        self.payload_size as nat,
                        |k: int| 0u8,
                    ),
            decreases self.block_size - i,
        {
            let row: Vec<u8> = vec![0u8; self.payload_size];
            proof {
                assert(row@ =~= Seq::new(self.payload_size as nat, |k: int| 0u8));
            }
            let ghost pre = block@;
            block.push(row);
            proof {
                assert forall|j: int| 0 <= j < i + 1 implies #[trigger] rows(block@)[j]
                    == Seq::new(self.payload_size as nat, |k: int| 0u8) by {
                    if j < i {
                        assert(block@[j] == pre[j]);
                        assert(rows(pre)[j] == Seq::new(self.payload_size as nat, |k: int| 0u8));
                    }
                }
            }
            i += 1;
        }
        block
    }

    /// Returns a block for reuse. Every byte of a block is written before it is handed out
    /// again, so the block is left as it is.
    pub fn recycle(&self, block: &mut Vec<Vec<u8>>)
        ensures
            final(block)@ == old(block)@,
    {
    }
}

} // verus!
