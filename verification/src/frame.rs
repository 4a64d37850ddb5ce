//! Frame records and the per-step engine configuration.

use vstd::prelude::*;

verus! {

/// The kind of chunk a frame was recognised as.
#[derive(Clone, Copy, Debug, PartialEq, Eq, Structural)]
pub enum FrameType {
    Video,
    Audio,
    Void,
}

/// One chunk of the frame-data segment: the byte range
/// `[offset, offset + size)` holds the chunk's tag, header and payload.
///
/// `prev_size` is the size of the frame that precedes this one in the raw
/// table (0 for the first); the frame's relative size is `size / prev_size`.
/// Frames are immutable value records: transforms reorder or copy them,
/// never mutate the fields.
#[derive(Clone, Copy, Debug, PartialEq, Eq, Structural)]
pub struct Frame {
    pub offset: usize,
    pub size: usize,
    pub prev_size: usize,
    pub frame_type: FrameType,
}

impl Frame {
    /// The frame's byte range lies inside a segment of `seg_len` bytes.
    pub open spec fn fits(self, seg_len: nat) -> bool {
        self.offset + self.size <= seg_len
    }
}

/// Every frame of the sequence fits inside a segment of `seg_len` bytes.
pub open spec fn all_fit(frames: Seq<Frame>, seg_len: nat) -> bool {
    forall|i: int| 0 <= i < frames.len() ==> (#[trigger] frames[i]).fits(seg_len)
}

/// The largest frame size of the sequence, 0 when it is empty.
pub open spec fn max_frame_size(frames: Seq<Frame>) -> nat
    decreases frames.len(),
{
    if frames.len() == 0 {
        0
    } else {
        let m = max_frame_size(frames.drop_last());
        if frames.last().size >= m {
            frames.last().size as nat
        } else {
            m
        }
    }
}

/// No frame of the sequence is larger than the largest frame size.
pub proof fn lemma_max_frame_size_bound(frames: Seq<Frame>)
    ensures
        forall|i: int| 0 <= i < frames.len() ==> (#[trigger] frames[i]).size <= max_frame_size(
            frames,
        ),
    decreases frames.len(),
{
    if frames.len() > 0 {
        lemma_max_frame_size_bound(frames.drop_last());
        assert forall|i: int| 0 <= i < frames.len() implies (#[trigger] frames[i]).size
            <= max_frame_size(frames) by {
            if i < frames.len() - 1 {
                assert(frames.drop_last()[i] == frames[i]);
            }
        }
    }
}

/// The largest frame size of a table, 0 when it is empty.
pub fn max_size_of(frames: &[Frame]) -> (r: usize)
    ensures
        r == max_frame_size(frames@),
{
    let n = frames.len();
    let mut m: usize = 0;
    let mut i: usize = 0;
    while i < n
        invariant
            n == frames@.len(),
            0 <= i <= n,
            m == max_frame_size(frames@.subrange(0, i as int)),
        decreases n - i,
    {
        proof {
            assert(frames@.subrange(0, i + 1).drop_last() =~= frames@.subrange(0, i as int));
            assert(frames@.subrange(0, i + 1).last() == frames@[i as int]);
        }
        if frames[i].size >= m {
            m = frames[i].size;
        }
        i = i + 1;
    }
    proof {
        assert(frames@.subrange(0, n as int) =~= frames@);
    }
    m
}

} // verus!
