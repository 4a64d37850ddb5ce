//! Stream Splitter: partition a container's bytes into header, frame-data
//! and index segments at two marker boundaries.

use vstd::prelude::*;
use crate::bytes::{bytes_eq, copy_range};

verus! {

/// The marker bytes `m` stand at position `i` of `data`.
pub open spec fn marker_at(data: Seq<u8>, m: Seq<u8>, i: int) -> bool {
    &&& 0 <= i
    &&& i + m.len() <= data.len()
    &&& data.subrange(i, i + m.len()) =~= m
}

/// No occurrence of `m` starts in `[from, to)` of `data`.
pub open spec fn no_marker_in(data: Seq<u8>, m: Seq<u8>, from: int, to: int) -> bool {
    forall|q: int| from <= q < to ==> !marker_at(data, m, q)
}

/// The ASCII bytes "movi": the marker that opens the frame-data list.
pub open spec fn movi_marker() -> Seq<u8> {
    seq![0x6du8, 0x6fu8, 0x76u8, 0x69u8]
}

/// The ASCII bytes "idx1": the marker that opens the index chunk.
pub open spec fn idx1_marker() -> Seq<u8> {
    seq![0x69u8, 0x64u8, 0x78u8, 0x31u8]
}

/// The executable "movi" marker.
pub fn movi_marker_bytes() -> (r: [u8; 4])
    ensures
        r@ =~= movi_marker(),
{
    [0x6d, 0x6f, 0x76, 0x69]
}

/// The executable "idx1" marker.
pub fn idx1_marker_bytes() -> (r: [u8; 4])
    ensures
        r@ =~= idx1_marker(),
{
    [0x69, 0x64, 0x78, 0x31]
}

/// Find the first occurrence of `marker` at or after `from` in `data`.
pub fn find_marker(data: &[u8], marker: &[u8], from: usize) -> (r: Option<usize>)
    requires
        from <= data@.len(),
        marker@.len() >= 1,
    ensures
        match r {
            Option::Some(p) => {
                &&& from <= p
                &&& marker_at(data@, marker@, p as int)
                &&& no_marker_in(data@, marker@, from as int, p as int)
            },
            Option::None => no_marker_in(data@, marker@, from as int, data@.len() as int),
        },
{
    let len = data.len();
    let mlen = marker.len();
    if mlen <= len {
        let mut p: usize = from;
        while p <= len - mlen
            invariant
                from <= p,
                p <= len == data@.len(),
                mlen == marker@.len() >= 1,
                mlen <= len,
                no_marker_in(data@, marker@, from as int, p as int),
            decreases len - p,
        {
            let window = &data[p..p + mlen];
            if bytes_eq(window, marker) {
                assert(window@ == data@.subrange(p as int, p + mlen));
                assert(marker_at(data@, marker@, p as int));
                return Some(p);
            }
            p = p + 1;
        }
        assert forall|q: int| p <= q < len implies !marker_at(data@, marker@, q) by {
            assert(q + marker@.len() > len);
        }
        None
    } else {
        assert forall|q: int| from <= q < len implies !marker_at(data@, marker@, q) by {
            assert(q + marker@.len() > len);
        }
        None
    }
}

/// Copy the bytes of `data` from `startpos` up to (not including) the first
/// occurrence of `marker` at or after `startpos`, and return the copied
/// segment together with the absolute position at which the marker begins.
///
/// If no marker is given, or none occurs, all remaining bytes are copied and
/// the position is the end of the stream: degraded input parses as a final
/// segment rather than failing.
pub fn bstream_until_marker(data: &[u8], marker: Option<&[u8]>, startpos: usize) -> (r: (
    Vec<u8>,
    usize,
))
    requires
        startpos <= data@.len(),
        marker is Some ==> marker.unwrap()@.len() >= 1,
    ensures
        startpos <= r.1 <= data@.len(),
        r.0@ == data@.subrange(startpos as int, r.1 as int),
        match marker {
            Option::Some(m) => {
                &&& no_marker_in(data@, m@, startpos as int, r.1 as int)
                &&& r.1 < data@.len() ==> marker_at(data@, m@, r.1 as int)
            },
            Option::None => r.1 == data@.len(),
        },
{
    let len = data.len();
    if let Some(m) = marker {
        match find_marker(data, m, startpos) {
            Some(p) => {
                let seg = copy_range(data, startpos, p);
                (seg, p)
            },
            None => {
                let seg = copy_range(data, startpos, len);
                (seg, len)
            },
        }
    } else {
        let seg = copy_range(data, startpos, len);
        (seg, len)
    }
}

/// The three segments of a container, and whether each marker was found.
pub struct SplitSegments {
    /// Everything before the "movi" marker.
    pub header: Vec<u8>,
    /// The frame-data segment, beginning with the "movi" marker itself.
    pub movi: Vec<u8>,
    /// The index segment, beginning with the "idx1" marker.
    pub index: Vec<u8>,
    /// The "movi" marker was found.
    pub movi_found: bool,
    /// The "idx1" marker was found at or after the "movi" position.
    pub idx1_found: bool,
}

/// `header`, `movi` and `index` partition `data` at the first "movi" marker
/// and the first "idx1" marker at or after it; a marker that is missing
/// leaves everything that follows in the preceding segment.
pub open spec fn splits_seq(data: Seq<u8>, header: Seq<u8>, movi: Seq<u8>, index: Seq<u8>) -> bool {
    let h = header.len() as int;
    let m = movi.len() as int;
    &&& header + movi + index == data
    &&& no_marker_in(data, movi_marker(), 0, h)
    &&& (h < data.len() ==> marker_at(data, movi_marker(), h))
    &&& no_marker_in(data, idx1_marker(), h, h + m)
    &&& (h + m < data.len() ==> marker_at(data, idx1_marker(), h + m))
}

impl SplitSegments {
    /// The segments partition `data` at the two markers, and the flags say
    /// whether each marker was found.
    pub open spec fn splits(self, data: Seq<u8>) -> bool {
        &&& splits_seq(data, self.header@, self.movi@, self.index@)
        &&& self.movi_found <==> self.header@.len() < data.len()
        &&& self.idx1_found <==> self.header@.len() + self.movi@.len() < data.len()
    }
}

/// Split a container's bytes into header, frame-data and index segments:
/// the header ends where the first "movi" marker begins, and the frame-data
/// segment ends where the first "idx1" marker at or after it begins. A
/// missing marker degrades gracefully: the remaining bytes all land in the
/// segment being copied and the later segments are empty.
pub fn split_container(data: &[u8]) -> (r: SplitSegments)
    ensures
        r.splits(data@),
{
    let movi = movi_marker_bytes();
    let idx1 = idx1_marker_bytes();
    let (header, movi_pos) = bstream_until_marker(data, Some(movi.as_slice()), 0);
    let (movi_seg, idx1_pos) = bstream_until_marker(data, Some(idx1.as_slice()), movi_pos);
    let (index_seg, _end) = bstream_until_marker(data, None, idx1_pos);
    let r = SplitSegments {
        header,
        movi: movi_seg,
        index: index_seg,
        movi_found: movi_pos < data.len(),
        idx1_found: idx1_pos < data.len(),
    };
    assert(r.header@ + r.movi@ + r.index@ =~= data@);
    r
}

} // verus!
