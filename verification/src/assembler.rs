//! Assembler: write the header segment verbatim, the literal frame-container
//! marker, the raw bytes of each surviving frame in pipeline order, and the
//! index segment verbatim.
//!
//! Header and index bytes are never rewritten to match the new frame order
//! or count. The resulting mismatch between the stale index and the
//! reordered chunk stream is deliberate: it is what produces moshed playback
//! in a tolerant decoder.

use vstd::prelude::*;
use crate::frame::{all_fit, Frame};
use crate::indexer::tiles;
use crate::splitter::{movi_marker, movi_marker_bytes};

verus! {

/// The bytes of the surviving frames, each the range
/// `[offset, offset + size)` of the frame-data segment, concatenated in
/// order.
pub open spec fn frames_bytes(movi: Seq<u8>, frames: Seq<Frame>) -> Seq<u8>
    decreases frames.len(),
{
    if frames.len() == 0 {
        Seq::empty()
    } else {
        let f = frames.first();
        movi.subrange(f.offset as int, f.offset + f.size) + frames_bytes(movi, frames.drop_first())
    }
}

/// The assembled container: header, the literal "movi" marker, the surviving
/// frames' bytes, and the index segment.
pub open spec fn assemble_spec(
    header: Seq<u8>,
    movi: Seq<u8>,
    index: Seq<u8>,
    frames: Seq<Frame>,
) -> Seq<u8> {
    header + movi_marker() + frames_bytes(movi, frames) + index
}

/// Assemble the output container bytes: the header verbatim, the 4-byte
/// "movi" marker, each surviving frame's raw byte range from the frame-data
/// segment in pipeline order, and the index verbatim.
pub fn assemble_output(header: &[u8], movi: &[u8], index: &[u8], frames: &[Frame]) -> (r: Vec<u8>)
    requires
        all_fit(frames@, movi@.len() as nat),
    ensures
        r@ == assemble_spec(header@, movi@, index@, frames@),
{
    let n = frames.len();
    let mlen = movi.len();
    let mut out: Vec<u8> = Vec::new();
    out.extend_from_slice(header);
    let marker = movi_marker_bytes();
    out.extend_from_slice(marker.as_slice());
    let ghost lead = header@ + movi_marker();
    proof {
        assert(out@ =~= lead);
        assert(frames@.skip(0) =~= frames@);
    }
    let mut i: usize = 0;
    while i < n
        invariant
            n == frames@.len(),
            mlen == movi@.len(),
            0 <= i <= n,
            all_fit(frames@, movi@.len() as nat),
            lead == header@ + movi_marker(),
            out@ + frames_bytes(movi@, frames@.skip(i as int)) == lead + frames_bytes(movi@,
                frames@),
        decreases n - i,
    {
        proof {
            assert(frames@.skip(i as int).first() == frames@[i as int]);
            assert(frames@.skip(i as int).drop_first() =~= frames@.skip(i + 1));
            assert(frames@[i as int].fits(movi@.len() as nat));
        }
        let f = frames[i];
        proof {
            assert(f.fits(movi@.len() as nat));
            assert(f.offset + f.size <= movi@.len());
        }
        let ghost chunk = movi@.subrange(f.offset as int, f.offset + f.size);
        let ghost rest = frames_bytes(movi@, frames@.skip(i + 1));
        proof {
            assert(out@ + (chunk + rest) =~= (out@ + chunk) + rest);
        }
        out.extend_from_slice(&movi[f.offset..f.offset + f.size]);
        i = i + 1;
    }
    proof {
        assert(frames_bytes(movi@, frames@.skip(n as int)) =~= Seq::<u8>::empty());
        assert(out@ + Seq::<u8>::empty() =~= out@);
    }
    out.extend_from_slice(index);
    proof {
        assert((lead + frames_bytes(movi@, frames@)) + index@ =~= assemble_spec(header@, movi@,
            index@, frames@));
    }
    out
}

/// A table that tiles the segment contributes exactly the segment's bytes
/// from its first offset to the segment's end: nothing between the frames is
/// lost or duplicated.
pub proof fn lemma_frames_bytes_cover(movi: Seq<u8>, frames: Seq<Frame>)
    requires
        tiles(frames, movi.len() as int),
        frames.len() > 0,
    ensures
        frames_bytes(movi, frames) == movi.subrange(frames[0].offset as int, movi.len() as int),
    decreases frames.len(),
{
    let f = frames.first();
    let tail = frames.drop_first();
    if frames.len() == 1 {
        assert(f.offset + f.size == movi.len());
        assert(frames_bytes(movi, tail) =~= Seq::<u8>::empty());
        assert(frames_bytes(movi, frames) =~= movi.subrange(f.offset as int, movi.len() as int));
    } else {
        assert(tiles(tail, movi.len() as int)) by {
            assert(forall|i: int| 0 <= i < tail.len() ==> #[trigger] tail[i] == frames[i + 1]);
        }
        lemma_frames_bytes_cover(movi, tail);
        assert(tail[0] == frames[1]);
        assert(f.offset + f.size == frames[1].offset);
        assert(movi.subrange(f.offset as int, f.offset + f.size) + movi.subrange(
            frames[1].offset as int, movi.len() as int) =~= movi.subrange(f.offset as int,
            movi.len() as int));
    }
}

} // verus!
