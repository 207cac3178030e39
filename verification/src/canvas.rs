//! The canvas's per-frame draw bookkeeping: the fast path that collects
//! widget instances and push-constant batches for one material, the
//! instance ranges each batch draws, and the order in which slots are
//! drawn (opaque before blended).

use vstd::prelude::*;

verus! {

/// The largest push constant a material may use, in bytes: the minimum
/// `max_immediate_size` that every adapter guarantees.
pub const MAX_IMMEDIATE_BYTES: usize = 256;

/// A run of fast-path instances drawn with one push constant.
pub struct PushBatch {
    /// The push-constant bytes of the run.
    pub push_bytes: Vec<u8>,
    /// The first instance of the run.
    pub start: u32,
}

/// Whether two byte strings are equal.
pub fn bytes_equal(a: &[u8], b: &[u8]) -> (r: bool)
    ensures
        r == (a@ == b@),
{
    if a.len() != b.len() {
        return false;
    }
    let mut i: usize = 0;
    while i < a.len()
        invariant
            a@.len() == b@.len(),
            0 <= i <= a@.len(),
            forall|j: int| 0 <= j < i ==> a@[j] == b@[j],
        decreases a@.len() - i,
    {
        if a[i] != b[i] {
            return false;
        }
        i = i + 1;
    }
    proof {
        assert(a@ =~= b@);
    }
    true
}

/// The CPU side of one material's fast path for the current frame: the
/// serialized instances, their count, and the push-constant batches.
pub struct FastPath {
    cpu: Vec<u8>,
    frame_count: u32,
    push_batches: Vec<PushBatch>,
}

/// The instance range `[start, end)` drawn by batch `i`: up to the next
/// batch's start, or to the frame's instance count for the last batch.
pub open spec fn batch_range(batches: Seq<(Seq<u8>, u32)>, count: u32, i: int) -> (u32, u32) {
    (batches[i].1, if i + 1 < batches.len() { batches[i + 1].1 } else { count })
}

/// The batches' ranges tile the frame's instances: batch `i` starts at its
/// own start, each batch ends exactly where the next one starts, and the
/// last ends at the frame's instance count, so no instance is drawn twice
/// and none after the first batch's start is left out.
pub proof fn lemma_batch_ranges_tile(batches: Seq<(Seq<u8>, u32)>, count: u32, i: int)
    requires
        0 <= i < batches.len(),
    ensures
        batch_range(batches, count, i).0 == batches[i].1,
        i + 1 < batches.len() ==> batch_range(batches, count, i).1 == batch_range(batches, count, i + 1).0,
        i + 1 == batches.len() ==> batch_range(batches, count, i).1 == count,
{
}

impl FastPath {
    /// The serialized instances of this frame.
    pub closed spec fn bytes(&self) -> Seq<u8> {
        self.cpu@
    }

    /// The number of instances of this frame.
    pub closed spec fn count(&self) -> u32 {
        self.frame_count
    }

    /// The push-constant batches of this frame: bytes and first instance.
    pub closed spec fn batches(&self) -> Seq<(Seq<u8>, u32)> {
        self.push_batches@.map_values(|b: PushBatch| (b.push_bytes@, b.start))
    }

    /// An empty fast path.
    pub fn new() -> (r: Self)
        ensures
            r.bytes() == Seq::<u8>::empty(),
            r.count() == 0,
            r.batches() == Seq::<(Seq<u8>, u32)>::empty(),
    {
        let r = FastPath { cpu: Vec::new(), frame_count: 0, push_batches: Vec::new() };
        proof {
            assert(r.batches() =~= Seq::<(Seq<u8>, u32)>::empty());
        }
        r
    }

    /// Appends one instance, given as its wire bytes.
    pub fn add_instance(&mut self, instance: &[u8])
        requires
            old(self).count() < u32::MAX,
        ensures
            final(self).bytes() == old(self).bytes() + instance@,
            final(self).count() == old(self).count() + 1,
            final(self).batches() == old(self).batches(),
    {
        let mut i: usize = 0;
        while i < instance.len()
            invariant
                0 <= i <= instance@.len(),
                self.cpu@ == old(self).cpu@ + instance@.subrange(0, i as int),
                self.frame_count == old(self).frame_count,
                self.push_batches@ == old(self).push_batches@,
            decreases instance@.len() - i,
        {
            self.cpu.push(instance[i]);
            proof {
                assert(instance@.subrange(0, i + 1) =~= instance@.subrange(0, i as int).push(instance@[i as int]));
            }
            i = i + 1;
        }
        proof {
            assert(instance@.subrange(0, i as int) =~= instance@);
        }
        self.frame_count = self.frame_count + 1;
    }

    /// Starts a new push-constant batch at the current instance, unless the
    /// last batch already uses the same bytes.
    pub fn set_push_constant(&mut self, data: &[u8])
        requires
            data@.len() <= MAX_IMMEDIATE_BYTES,
        ensures
            final(self).bytes() == old(self).bytes(),
            final(self).count() == old(self).count(),
            final(self).batches() == if old(self).batches().len() > 0 && old(self).batches().last().0
                == data@ {
                old(self).batches()
            } else {
                old(self).batches().push((data@, old(self).count()))
            },
    {
        let n = self.push_batches.len();
        if n > 0 && bytes_equal(self.push_batches[n - 1].push_bytes.as_slice(), data) {
            return;
        }
        let mut copy: Vec<u8> = Vec::new();
        let mut i: usize = 0;
        while i < data.len()
            invariant
                0 <= i <= data@.len(),
                copy@ == data@.subrange(0, i as int),
            decreases data@.len() - i,
        {
            copy.push(data[i]);
            i = i + 1;
        }
        proof {
            assert(copy@ =~= data@);
        }
        self.push_batches.push(PushBatch { push_bytes: copy, start: self.frame_count });
        proof {
            assert(self.batches() =~= old(self).batches().push((data@, old(self).count())));
        }
    }

    /// Clears the frame's instances and batches.
    pub fn clear(&mut self)
        ensures
            final(self).bytes() == Seq::<u8>::empty(),
            final(self).count() == 0,
            final(self).batches() == Seq::<(Seq<u8>, u32)>::empty(),
    {
        self.frame_count = 0;
        self.cpu.clear();
        self.push_batches.clear();
        proof {
            assert(self.batches() =~= Seq::<(Seq<u8>, u32)>::empty());
        }
    }

    /// The number of instances of this frame.
    pub fn frame_count(&self) -> (r: u32)
        ensures
            r == self.count(),
    {
        self.frame_count
    }

    /// The serialized instances of this frame.
    pub fn cpu_bytes(&self) -> (r: &[u8])
        ensures
            r@ == self.bytes(),
    {
        self.cpu.as_slice()
    }

    /// The push-constant bytes of batch `i`.
    pub fn batch_bytes(&self, i: usize) -> (r: &[u8])
        requires
            i < self.batches().len(),
        ensures
            r@ == self.batches()[i as int].0,
    {
        self.push_batches[i].push_bytes.as_slice()
    }

    /// The instance range of every batch, in batch order.
    pub fn draw_ranges(&self) -> (r: Vec<(u32, u32)>)
        ensures
            r@.len() == self.batches().len(),
            forall|i: int| 0 <= i < r@.len() ==> #[trigger] r@[i] == batch_range(self.batches(), self.count(), i),
            forall|i: int| 0 <= i < r@.len() ==> (#[trigger] r@[i]).0 == self.batches()[i].1,
            forall|i: int| 0 <= i < r@.len() - 1 ==> (#[trigger] r@[i]).1 == r@[i + 1].0,
            r@.len() > 0 ==> r@[r@.len() - 1].1 == self.count(),
    {
        let n = self.push_batches.len();
        let mut out: Vec<(u32, u32)> = Vec::new();
        let mut i: usize = 0;
        while i < n
            invariant
                n == self.push_batches@.len(),
                0 <= i <= n,
                out@.len() == i,
                forall|j: int| 0 <= j < i ==> #[trigger] out@[j] == batch_range(self.batches(), self.count(), j),
            decreases n - i,
        {
            let end = if i + 1 < n {
                self.push_batches[i + 1].start
            } else {
                self.frame_count
            };
            out.push((self.push_batches[i].start, end));
            i = i + 1;
        }
        out
    }
}

/// Writes the framebuffer size into a material's push constant: when the
/// material reads it there (`wants_size`) and the push constant has room,
/// its first eight bytes become `size_bytes`, the size as the shader reads
/// it; otherwise the push constant is left as it is.
pub fn stamp_framebuffer_size(push: &mut Vec<u8>, wants_size: bool, size_bytes: &[u8])
    requires
        size_bytes@.len() == 8,
    ensures
        wants_size && old(push)@.len() >= 8 ==> final(push)@ == size_bytes@ + old(push)@.subrange(
            8,
            old(push)@.len() as int,
        ),
        !(wants_size && old(push)@.len() >= 8) ==> final(push)@ == old(push)@,
{
    if !wants_size || push.len() < 8 {
        return;
    }
    let mut i: usize = 0;
    while i < 8
        invariant
            0 <= i <= 8,
            size_bytes@.len() == 8,
            push@.len() == old(push)@.len(),
            old(push)@.len() >= 8,
            forall|j: int| 0 <= j < i ==> push@[j] == size_bytes@[j],
            forall|j: int| i <= j < push@.len() ==> push@[j] == old(push)@[j],
        decreases 8 - i,
    {
        push.set(i, size_bytes[i]);
        i = i + 1;
    }
    proof {
        assert(push@ =~= size_bytes@ + old(push)@.subrange(8, old(push)@.len() as int));
    }
}

/// Whether a fast-path GPU buffer of `current` bytes (`None`: none yet) must
/// be recreated to hold `cpu_len` bytes (a buffer holds at least one byte).
pub fn needs_recreate(current: Option<u64>, cpu_len: usize) -> (r: bool)
    ensures
        r == match current {
            None => true,
            Some(size) => size < (if cpu_len > 1 { cpu_len as int } else { 1 }),
        },
{
    match current {
        None => true,
        Some(size) => {
            let needed: u64 = if cpu_len > 1 { cpu_len as u64 } else { 1 };
            size < needed
        },
    }
}

/// The indices below `n` whose flag equals `v`, in increasing order.
pub open spec fn indices_with(flags: Seq<bool>, v: bool, n: int) -> Seq<usize>
    decreases n,
{
    if n <= 0 {
        Seq::empty()
    } else if flags[n - 1] == v {
        indices_with(flags, v, n - 1).push((n - 1) as usize)
    } else {
        indices_with(flags, v, n - 1)
    }
}

/// The draw order of slots whose blend flags are `blended`: opaque slots
/// first, then blended ones, each group in slot order.
pub fn blend_last_order(blended: &[bool]) -> (r: Vec<usize>)
    ensures
        r@ == indices_with(blended@, false, blended@.len() as int) + indices_with(
            blended@,
            true,
            blended@.len() as int,
        ),
{
    let n = blended.len();
    let mut out: Vec<usize> = Vec::new();
    let mut i: usize = 0;
    while i < n
        invariant
            n == blended@.len(),
            0 <= i <= n,
            out@ == indices_with(blended@, false, i as int),
        decreases n - i,
    {
        if !blended[i] {
            out.push(i);
        }
        i = i + 1;
    }
    let ghost first = out@;
    let mut j: usize = 0;
    while j < n
        invariant
            n == blended@.len(),
            0 <= j <= n,
            first == indices_with(blended@, false, n as int),
            out@ == first + indices_with(blended@, true, j as int),
        decreases n - j,
    {
        if blended[j] {
            out.push(j);
            proof {
                assert(first + indices_with(blended@, true, j as int).push(j) =~= (first + indices_with(
                    blended@,
                    true,
                    j as int,
                )).push(j));
            }
        }
        j = j + 1;
    }
    out
}

} // verus!
