//! Frame Selector: drop frames that are too large in absolute terms (a
//! fraction of the largest raw frame) or relative to the frame examined just
//! before them. Oversized frames are typically keyframes; dropping them is
//! what forces a decoder to replay delta frames against a stale reference.

use vstd::prelude::*;
use crate::frame::{lemma_max_frame_size_bound, max_frame_size, max_size_of, Frame, FrameType};
use crate::opt::Opt;

verus! {

/// The keep test for one frame: its size is at most `kill_milli / 1000` of
/// the largest raw frame, and at most `1 + kill_rel_milli / 1000` times the
/// size of the previously examined frame (`None` leaves the relative size
/// unbounded).
pub open spec fn keep_frame(
    size: nat,
    max: nat,
    prev: nat,
    kill_milli: nat,
    kill_rel_milli: Option<i64>,
) -> bool {
    &&& 1000 * size <= kill_milli * max
    &&& match kill_rel_milli {
        Option::None => true,
        Option::Some(k) => 1000 * size <= (1000 + k) * prev,
    }
}

/// The frames of `frames` that pass the keep test, walked in order with the
/// rolling previous size `prev`; `prev` advances to each examined frame's
/// size whether or not the frame was kept.
pub open spec fn select_from(frames: Seq<Frame>, max: nat, prev: nat, opt: Opt) -> Seq<Frame>
    decreases frames.len(),
{
    if frames.len() == 0 {
        Seq::empty()
    } else {
        let f = frames.first();
        let rest = select_from(frames.drop_first(), max, f.size as nat, opt);
        if keep_frame(f.size as nat, max, prev, opt.kill_milli as nat, opt.kill_rel_milli) {
            seq![f] + rest
        } else {
            rest
        }
    }
}

/// The first video frame of the table, if any.
pub open spec fn first_video(frames: Seq<Frame>) -> Option<Frame>
    decreases frames.len(),
{
    if frames.len() == 0 {
        None
    } else if frames.first().frame_type == FrameType::Video {
        Some(frames.first())
    } else {
        first_video(frames.drop_first())
    }
}

/// The whole selection: optionally seed the output with the first video
/// frame (which also initialises the rolling previous size), then walk the
/// full raw table with the keep test.
pub open spec fn select_spec(frames: Seq<Frame>, opt: Opt) -> Seq<Frame> {
    let max = max_frame_size(frames);
    if opt.firstframe {
        match first_video(frames) {
            Some(f) => seq![f] + select_from(frames, max, f.size as nat, opt),
            None => select_from(frames, max, 0, opt),
        }
    } else {
        select_from(frames, max, 0, opt)
    }
}

/// A walk whose every frame passes the absolute test with room to spare and
/// whose relative test is disabled keeps every frame.
proof fn lemma_select_all_from(frames: Seq<Frame>, max: nat, prev: nat, opt: Opt)
    requires
        opt.kill_milli >= 1000,
        opt.kill_rel_milli is None,
        forall|i: int| 0 <= i < frames.len() ==> (#[trigger] frames[i]).size <= max,
    ensures
        select_from(frames, max, prev, opt) == frames,
    decreases frames.len(),
{
    if frames.len() > 0 {
        let f = frames.first();
        assert(forall|i: int| 0 <= i < frames.drop_first().len()
            ==> (#[trigger] frames.drop_first()[i]).size <= max);
        lemma_select_all_from(frames.drop_first(), max, f.size as nat, opt);
        assert(1000 * (f.size as nat) <= (opt.kill_milli as nat) * max) by (nonlinear_arith)
            requires
                opt.kill_milli >= 1000,
                f.size <= max;
        assert(seq![f] + frames.drop_first() =~= frames);
    }
}

/// The full unfiltered table survives selection: with the absolute threshold
/// at its unit value, no relative bound and no first-frame seeding, the
/// selector keeps every frame unchanged.
pub proof fn lemma_select_all(frames: Seq<Frame>, opt: Opt)
    requires
        opt.kill_milli >= 1000,
        opt.kill_rel_milli is None,
        !opt.firstframe,
    ensures
        select_spec(frames, opt) == frames,
{
    lemma_max_frame_size_bound(frames);
    lemma_select_all_from(frames, max_frame_size(frames), 0, opt);
}

/// The executable keep test, exact over the thousandths thresholds.
fn keep_frame_exec(size: usize, max: usize, prev: usize, opt: &Opt) -> (r: bool)
    ensures
        r == keep_frame(size as nat, max as nat, prev as nat, opt.kill_milli as nat,
            opt.kill_rel_milli),
{
    proof {
        assert((opt.kill_milli as u128) * (max as u128) <= u128::MAX) by (nonlinear_arith)
            requires
                max <= u64::MAX,
                opt.kill_milli <= u64::MAX;
    }
    let abs_ok = 1000 * (size as u128) <= (opt.kill_milli as u128) * (max as u128);
    let rel_ok = match opt.kill_rel_milli {
        None => true,
        Some(k) => {
            let factor: i128 = 1000 + (k as i128);
            if factor < 0 {
                proof {
                    if prev > 0 {
                        assert((1000 + k as int) * (prev as int) < 0) by (nonlinear_arith)
                            requires
                                (1000 + k as int) < 0,
                                0 < prev;
                    }
                }
                size == 0 && prev == 0
            } else {
                proof {
                    assert((factor as u128) * (prev as u128) <= u128::MAX) by (nonlinear_arith)
                        requires
                            prev <= u64::MAX,
                            0 <= factor <= u64::MAX;
                }
                1000 * (size as u128) <= (factor as u128) * (prev as u128)
            }
        },
    };
    abs_ok && rel_ok
}

/// Find the first video frame of the table.
fn find_first_video(frames: &[Frame]) -> (r: Option<Frame>)
    ensures
        r == first_video(frames@),
{
    let n = frames.len();
    let mut j: usize = 0;
    proof {
        assert(frames@.skip(0) =~= frames@);
    }
    while j < n
        invariant
            n == frames@.len(),
            0 <= j <= n,
            first_video(frames@.skip(j as int)) == first_video(frames@),
        decreases n - j,
    {
        proof {
            assert(frames@.skip(j as int).first() == frames@[j as int]);
            assert(frames@.skip(j as int).drop_first() =~= frames@.skip(j + 1));
        }
        if frames[j].frame_type == FrameType::Video {
            return Some(frames[j]);
        }
        j = j + 1;
    }
    proof {
        assert(frames@.skip(n as int) =~= Seq::<Frame>::empty());
    }
    None
}

/// Filter the raw table by the size thresholds of `opt`. The largest frame
/// size is taken over the full raw table; the rolling previous size follows
/// every examined frame, kept or not.
pub fn select_frames(frames: &[Frame], opt: &Opt) -> (r: Vec<Frame>)
    ensures
        r@ == select_spec(frames@, *opt),
{
    let n = frames.len();
    let max = max_size_of(frames);
    let mut out: Vec<Frame> = Vec::new();
    let mut prev: usize = 0;
    if opt.firstframe {
        match find_first_video(frames) {
            Some(f) => {
                out.push(f);
                prev = f.size;
            },
            None => {},
        }
    }
    let ghost seed = out@;
    let ghost prev0 = prev as nat;
    proof {
        if !opt.firstframe || first_video(frames@) is None {
            assert(seed + select_from(frames@, max as nat, prev0, *opt) =~= select_from(frames@,
                max as nat, prev0, *opt));
        }
        assert(select_spec(frames@, *opt) == seed + select_from(frames@, max as nat, prev0,
            *opt));
        assert(frames@.skip(0) =~= frames@);
    }
    let mut i: usize = 0;
    while i < n
        invariant
            n == frames@.len(),
            0 <= i <= n,
            max == max_frame_size(frames@),
            select_spec(frames@, *opt) == seed + select_from(frames@, max as nat, prev0, *opt),
            seed + select_from(frames@, max as nat, prev0, *opt) == out@ + select_from(
                frames@.skip(i as int),
                max as nat,
                prev as nat,
                *opt,
            ),
        decreases n - i,
    {
        proof {
            assert(frames@.skip(i as int).first() == frames@[i as int]);
            assert(frames@.skip(i as int).drop_first() =~= frames@.skip(i + 1));
        }
        let f = frames[i];
        let ghost rest = select_from(frames@.skip(i + 1), max as nat, f.size as nat, *opt);
        if keep_frame_exec(f.size, max, prev, opt) {
            proof {
                assert(out@ + (seq![f] + rest) =~= (out@ + seq![f]) + rest);
            }
            out.push(f);
        }
        prev = f.size;
        i = i + 1;
    }
    proof {
        assert(frames@.skip(n as int) =~= Seq::<Frame>::empty());
        assert(out@ + Seq::<Frame>::empty() =~= out@);
    }
    out
}

} // verus!
