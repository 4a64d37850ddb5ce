//! Pipeline: chain Selector → Transform → Multiply across an ordered list of
//! step configurations. The same step logic backs both the simulate mode
//! (frame counts and sizes for interactive preview) and the real mode (byte
//! assembly), so previews never diverge from final output.

use vstd::prelude::*;
use crate::assembler::{assemble_output, assemble_spec, frames_bytes, lemma_frames_bytes_cover};
use crate::frame::{all_fit, Frame};
use crate::indexer::{build_frame_table, frame_table_spec, lemma_table_wf};
use crate::opt::{ConfigFault, EngineError, Mode, Opt};
use crate::selector::{first_video, select_frames, select_from, select_spec, lemma_select_all};
use crate::splitter::{movi_marker, split_container, splits_seq};
use crate::transform::{
    bloom_spec, invert_spec, multiply_frames, multiply_spec, overlap_from, process_frames,
    pulse_from, transform_ok, transform_result,
};

verus! {

/// The relation between a step's kept frames and its transform output: the
/// deterministic modes yield exactly `transform_result`; random yields some
/// permutation; jiggle yields some same-length sequence of input frames.
pub open spec fn transform_rel(input: Seq<Frame>, output: Seq<Frame>, opt: Opt) -> bool {
    match opt.mode {
        Mode::Random => output.to_multiset() == input.to_multiset(),
        Mode::Jiggle => output.len() == input.len() && (forall|i: int|
            0 <= i < output.len() ==> input.contains(#[trigger] output[i])),
        _ => output == transform_result(input, opt),
    }
}

/// What one full step may turn `input` into: select by the thresholds,
/// transform the kept frames, and multiply if configured.
pub open spec fn step_rel(input: Seq<Frame>, output: Seq<Frame>, opt: Opt) -> bool {
    let kept = select_spec(input, opt);
    &&& transform_ok(kept, opt)
    &&& exists|mid: Seq<Frame>|
        {
            &&& #[trigger] transform_rel(kept, mid, opt)
            &&& output == if opt.multiply > 1 {
                multiply_spec(mid, opt.multiply as nat)
            } else {
                mid
            }
        }
}

/// The error an invalid step configuration yields.
pub open spec fn step_error(opt: Opt) -> EngineError {
    EngineError::InvalidConfiguration(
        if opt.mode == Mode::Bloom {
            ConfigFault::BloomPositionOutOfRange
        } else {
            ConfigFault::ZeroRhythm
        },
    )
}

/// Run one pipeline step: Selector → Transform → Multiply.
pub fn run_step(frames: &[Frame], opt: &Opt) -> (r: Result<Vec<Frame>, EngineError>)
    ensures
        r is Ok <==> transform_ok(select_spec(frames@, *opt), *opt),
        match r {
            Result::Ok(out) => step_rel(frames@, out@, *opt),
            Result::Err(e) => e == step_error(*opt),
        },
{
    let kept = select_frames(frames, opt);
    match process_frames(kept.as_slice(), opt) {
        Ok(pair) => {
            let transformed = pair.0;
            proof {
                assert(transform_rel(select_spec(frames@, *opt), transformed@, *opt));
            }
            if opt.multiply > 1 {
                let multiplied = multiply_frames(transformed.as_slice(), opt.multiply);
                Ok(multiplied)
            } else {
                Ok(transformed)
            }
        },
        Err(e) => Err(e),
    }
}

/// The chain of step relations across an ordered step list.
pub open spec fn pipeline_rel(input: Seq<Frame>, output: Seq<Frame>, steps: Seq<Opt>) -> bool
    decreases steps.len(),
{
    if steps.len() == 0 {
        output == input
    } else {
        exists|mid: Seq<Frame>|
            {
                &&& #[trigger] step_rel(input, mid, steps[0])
                &&& pipeline_rel(mid, output, steps.drop_first())
            }
    }
}

/// The pipeline can fail with `e` on `input`: some reachable intermediate
/// state makes a step's configuration invalid, and `e` is that step's error.
pub open spec fn pipeline_fails(input: Seq<Frame>, steps: Seq<Opt>, e: EngineError) -> bool
    decreases steps.len(),
{
    if steps.len() == 0 {
        false
    } else {
        ||| (!transform_ok(select_spec(input, steps[0]), steps[0]) && e == step_error(steps[0]))
        ||| exists|mid: Seq<Frame>|
            {
                &&& #[trigger] step_rel(input, mid, steps[0])
                &&& pipeline_fails(mid, steps.drop_first(), e)
            }
    }
}

/// A finished chain grows by one more related step.
proof fn lemma_pipeline_rel_extend(
    input: Seq<Frame>,
    mid: Seq<Frame>,
    out: Seq<Frame>,
    done: Seq<Opt>,
    x: Opt,
)
    requires
        pipeline_rel(input, mid, done),
        step_rel(mid, out, x),
    ensures
        pipeline_rel(input, out, done.push(x)),
    decreases done.len(),
{
    if done.len() == 0 {
        assert(mid == input);
        assert(done.push(x)[0] == x);
        assert(done.push(x).drop_first() =~= Seq::<Opt>::empty());
        assert(pipeline_rel(out, out, done.push(x).drop_first()));
        assert(step_rel(input, out, done.push(x)[0]));
    } else {
        let m1 = choose|m1: Seq<Frame>|
            {
                &&& #[trigger] step_rel(input, m1, done[0])
                &&& pipeline_rel(m1, mid, done.drop_first())
            };
        lemma_pipeline_rel_extend(m1, mid, out, done.drop_first(), x);
        assert(done.push(x)[0] == done[0]);
        assert(done.push(x).drop_first() =~= done.drop_first().push(x));
        assert(step_rel(input, m1, done.push(x)[0]));
        assert(pipeline_rel(m1, out, done.push(x).drop_first()));
    }
}

/// A failure after a finished chain is a failure of the whole step list.
proof fn lemma_pipeline_fails_prefix(
    input: Seq<Frame>,
    mid: Seq<Frame>,
    done: Seq<Opt>,
    rest: Seq<Opt>,
    e: EngineError,
)
    requires
        pipeline_rel(input, mid, done),
        pipeline_fails(mid, rest, e),
    ensures
        pipeline_fails(input, done + rest, e),
    decreases done.len(),
{
    if done.len() == 0 {
        assert(mid == input);
        assert(done + rest =~= rest);
    } else {
        let m1 = choose|m1: Seq<Frame>|
            {
                &&& #[trigger] step_rel(input, m1, done[0])
                &&& pipeline_rel(m1, mid, done.drop_first())
            };
        lemma_pipeline_fails_prefix(m1, mid, done.drop_first(), rest, e);
        assert((done + rest)[0] == done[0]);
        assert((done + rest).drop_first() =~= done.drop_first() + rest);
        assert(step_rel(input, m1, (done + rest)[0]));
        assert(pipeline_fails(m1, (done + rest).drop_first(), e));
    }
}

/// Run the whole pipeline on a frame table, step by step: step 0 consumes
/// the raw table, each later step consumes the previous step's output. This
/// is the shared logic behind the simulate mode (no bytes are copied) and
/// the real mode (the output feeds the assembler).
pub fn simulate_processing(frame_data: Vec<Frame>, steps: &[Opt]) -> (r: Result<
    Vec<Frame>,
    EngineError,
>)
    ensures
        match r {
            Result::Ok(out) => pipeline_rel(frame_data@, out@, steps@),
            Result::Err(e) => pipeline_fails(frame_data@, steps@, e),
        },
{
    let ghost input = frame_data@;
    let n = steps.len();
    let mut current = frame_data;
    let mut i: usize = 0;
    proof {
        assert(steps@.subrange(0, 0) =~= Seq::<Opt>::empty());
        assert(pipeline_rel(input, input, steps@.subrange(0, 0)));
    }
    while i < n
        invariant
            input == frame_data@,
            n == steps@.len(),
            0 <= i <= n,
            pipeline_rel(input, current@, steps@.subrange(0, i as int)),
        decreases n - i,
    {
        let ghost done = steps@.subrange(0, i as int);
        let opt = steps[i];
        match run_step(current.as_slice(), &opt) {
            Ok(next) => {
                proof {
                    lemma_pipeline_rel_extend(input, current@, next@, done, steps@[i as int]);
                    assert(done.push(steps@[i as int]) =~= steps@.subrange(0, i + 1));
                }
                current = next;
            },
            Err(e) => {
                proof {
                    let rest = steps@.skip(i as int);
                    assert(rest[0] == steps@[i as int]);
                    assert(pipeline_fails(current@, rest, e));
                    lemma_pipeline_fails_prefix(input, current@, done, rest, e);
                    assert(done + rest =~= steps@);
                }
                return Err(e);
            },
        }
        i = i + 1;
    }
    proof {
        assert(steps@.subrange(0, n as int) =~= steps@);
    }
    Ok(current)
}

/// Every frame a valid transform emits is one of its input frames.
proof fn lemma_transform_members(input: Seq<Frame>, output: Seq<Frame>, opt: Opt)
    requires
        transform_ok(input, opt),
        transform_rel(input, output, opt),
    ensures
        forall|k: int| 0 <= k < output.len() ==> input.contains(#[trigger] output[k]),
{
    match opt.mode {
        Mode::Random => {
            assert forall|k: int| 0 <= k < output.len() implies input.contains(
                #[trigger] output[k],
            ) by {
                broadcast use vstd::seq_lib::group_to_multiset_ensures;

                assert(output.contains(output[k]));
                assert(output.to_multiset().count(output[k]) > 0);
            }
        },
        Mode::Jiggle => {},
        Mode::Void => {
            assert forall|k: int| 0 <= k < output.len() implies input.contains(
                #[trigger] output[k],
            ) by {
                assert(input[k] == output[k]);
            }
        },
        Mode::Reverse => {
            assert forall|k: int| 0 <= k < output.len() implies input.contains(
                #[trigger] output[k],
            ) by {
                assert(input[input.len() - 1 - k] == output[k]);
            }
        },
        Mode::Invert => {
            assert forall|k: int| 0 <= k < output.len() implies input.contains(
                #[trigger] output[k],
            ) by {
                assert(output == invert_spec(input));
                if k % 2 == 0 {
                    if k + 1 < input.len() {
                        assert(input[k + 1] == output[k]);
                    } else {
                        assert(input[k] == output[k]);
                    }
                } else {
                    assert(input[k - 1] == output[k]);
                }
            }
        },
        Mode::Bloom => {
            let p = opt.positframes as int;
            let c = opt.countframes as int;
            assert forall|k: int| 0 <= k < output.len() implies input.contains(
                #[trigger] output[k],
            ) by {
                assert(output == bloom_spec(input, opt.countframes as nat, p));
                if k < p {
                    assert(input[k] == output[k]);
                } else if k < p + c {
                    assert(input[p] == output[k]);
                } else {
                    assert(input[k - c + 1] == output[k]);
                }
            }
        },
        Mode::Pulse => {
            lemma_pulse_members(input, opt.countframes as nat, opt.positframes as nat, 0);
        },
        Mode::Overlap => {
            lemma_overlap_members(input, opt.countframes as nat, opt.positframes as nat, 0);
        },
    }
}

/// Every frame of a pulse tail is an input frame.
proof fn lemma_pulse_members(s: Seq<Frame>, count: nat, rhythm: nat, j: int)
    requires
        0 <= j,
    ensures
        forall|k: int|
            0 <= k < pulse_from(s, count, rhythm, j).len() ==> s.contains(
                #[trigger] pulse_from(s, count, rhythm, j)[k],
            ),
    decreases s.len() - j,
{
    if j < s.len() {
        lemma_pulse_members(s, count, rhythm, j + 1);
        let whole = pulse_from(s, count, rhythm, j);
        let rest = pulse_from(s, count, rhythm, j + 1);
        let here_len = whole.len() - rest.len();
        assert forall|k: int| 0 <= k < whole.len() implies s.contains(#[trigger] whole[k]) by {
            if k < here_len {
                assert(whole[k] == s[j]);
                assert(s.contains(s[j]));
            } else {
                assert(whole[k] == rest[k - here_len]);
            }
        }
    }
}

/// Every frame of an overlap tail is an input frame.
proof fn lemma_overlap_members(s: Seq<Frame>, count: nat, rhythm: nat, j: int)
    requires
        0 <= j,
    ensures
        forall|k: int|
            0 <= k < overlap_from(s, count, rhythm, j).len() ==> s.contains(
                #[trigger] overlap_from(s, count, rhythm, j)[k],
            ),
    decreases s.len() - j,
{
    if j < s.len() {
        lemma_overlap_members(s, count, rhythm, j + 1);
        let whole = overlap_from(s, count, rhythm, j);
        let rest = overlap_from(s, count, rhythm, j + 1);
        let here_len = whole.len() - rest.len();
        assert forall|k: int| 0 <= k < whole.len() implies s.contains(#[trigger] whole[k]) by {
            if k < here_len {
                assert(whole[k] == s[j]);
                assert(s.contains(s[j]));
            } else {
                assert(whole[k] == rest[k - here_len]);
            }
        }
    }
}

/// Every frame the selector's walk keeps is an input frame.
proof fn lemma_select_from_members(frames: Seq<Frame>, max: nat, prev: nat, opt: Opt)
    ensures
        forall|k: int|
            0 <= k < select_from(frames, max, prev, opt).len() ==> frames.contains(
                #[trigger] select_from(frames, max, prev, opt)[k],
            ),
    decreases frames.len(),
{
    if frames.len() > 0 {
        let f = frames.first();
        let tail = frames.drop_first();
        lemma_select_from_members(tail, max, f.size as nat, opt);
        let whole = select_from(frames, max, prev, opt);
        let rest = select_from(tail, max, f.size as nat, opt);
        let here_len = whole.len() - rest.len();
        assert forall|k: int| 0 <= k < whole.len() implies frames.contains(#[trigger] whole[k]) by {
            if k < here_len {
                assert(whole[k] == f);
                assert(frames[0] == f);
            } else {
                assert(whole[k] == rest[k - here_len]);
                let j = choose|j: int| 0 <= j < tail.len() && tail[j] == rest[k - here_len];
                assert(frames[j + 1] == whole[k]);
            }
        }
    }
}

/// The seeded first video frame is an input frame.
proof fn lemma_first_video_member(frames: Seq<Frame>)
    ensures
        first_video(frames) matches Some(f) ==> frames.contains(f),
    decreases frames.len(),
{
    if frames.len() > 0 {
        lemma_first_video_member(frames.drop_first());
        if frames.first().frame_type is Video {
        } else {
            match first_video(frames.drop_first()) {
                Some(f) => {
                    let j = choose|j: int|
                        0 <= j < frames.drop_first().len() && frames.drop_first()[j] == f;
                    assert(frames[j + 1] == f);
                },
                None => {},
            }
        }
    }
}

/// Every frame the selector returns is an input frame.
proof fn lemma_select_members(frames: Seq<Frame>, opt: Opt)
    ensures
        forall|k: int|
            0 <= k < select_spec(frames, opt).len() ==> frames.contains(
                #[trigger] select_spec(frames, opt)[k],
            ),
{
    let max = crate::frame::max_frame_size(frames);
    lemma_select_from_members(frames, max, 0, opt);
    if opt.firstframe {
        lemma_first_video_member(frames);
        match first_video(frames) {
            Some(f) => {
                lemma_select_from_members(frames, max, f.size as nat, opt);
                let whole = select_spec(frames, opt);
                assert forall|k: int| 0 <= k < whole.len() implies frames.contains(
                    #[trigger] whole[k],
                ) by {
                    if k == 0 {
                        assert(whole[0] == f);
                    } else {
                        assert(whole[k] == select_from(frames, max, f.size as nat, opt)[k - 1]);
                    }
                }
            },
            None => {},
        }
    }
}

/// Every frame of a multiplied sequence is a frame of the sequence.
proof fn lemma_multiply_members(s: Seq<Frame>, m: nat)
    requires
        m >= 1,
    ensures
        forall|k: int|
            0 <= k < multiply_spec(s, m).len() ==> s.contains(#[trigger] multiply_spec(s, m)[k]),
{
    assert forall|k: int| 0 <= k < multiply_spec(s, m).len() implies s.contains(
        #[trigger] multiply_spec(s, m)[k],
    ) by {
        assert(0 <= k / (m as int) < s.len()) by (nonlinear_arith)
            requires
                m >= 1,
                0 <= k < s.len() * m;
        assert(multiply_spec(s, m)[k] == s[k / (m as int)]);
    }
}

/// A step's output frames all lie inside the segment its input frames lie
/// in: transforms only reorder and copy frames.
pub proof fn lemma_step_fits(input: Seq<Frame>, output: Seq<Frame>, opt: Opt, seg_len: nat)
    requires
        step_rel(input, output, opt),
        all_fit(input, seg_len),
    ensures
        all_fit(output, seg_len),
{
    let kept = select_spec(input, opt);
    lemma_select_members(input, opt);
    let mid = choose|mid: Seq<Frame>|
        {
            &&& #[trigger] transform_rel(kept, mid, opt)
            &&& output == if opt.multiply > 1 {
                multiply_spec(mid, opt.multiply as nat)
            } else {
                mid
            }
        };
    lemma_transform_members(kept, mid, opt);
    if opt.multiply > 1 {
        lemma_multiply_members(mid, opt.multiply as nat);
    }
    assert forall|k: int| 0 <= k < output.len() implies (#[trigger] output[k]).fits(seg_len) by {
        let f = output[k];
        assert(mid.contains(f)) by {
            if opt.multiply > 1 {
                let a = choose|a: int| 0 <= a < mid.len() && mid[a] == f;
                assert(mid[a] == f);
            }
        }
        let b = choose|b: int| 0 <= b < mid.len() && mid[b] == f;
        assert(kept.contains(mid[b]));
        let c = choose|c: int| 0 <= c < kept.len() && kept[c] == f;
        assert(input.contains(kept[c]));
        let d = choose|d: int| 0 <= d < input.len() && input[d] == f;
        assert(input[d].fits(seg_len));
    }
}

/// Real-mode processing of a container's bytes: split at the markers, index
/// the frame-data segment, run the configured step, and assemble the output
/// container. The step logic is the same `run_step` that backs simulation.
pub fn process_container(data: &[u8], opt: &Opt) -> (r: Result<Vec<u8>, EngineError>)
    ensures
        match r {
            Result::Ok(out) => exists|h: Seq<u8>, m: Seq<u8>, x: Seq<u8>, frames: Seq<Frame>|
                {
                    &&& #[trigger] splits_seq(data@, h, m, x)
                    &&& #[trigger] step_rel(frame_table_spec(m, opt.audio), frames, *opt)
                    &&& out@ == assemble_spec(h, m, x, frames)
                },
            Result::Err(e) => {
                &&& e == step_error(*opt)
                &&& exists|h: Seq<u8>, m: Seq<u8>, x: Seq<u8>|
                    {
                        &&& #[trigger] splits_seq(data@, h, m, x)
                        &&& !transform_ok(select_spec(frame_table_spec(m, opt.audio), *opt), *opt)
                    }
            },
        },
{
    let segs = split_container(data);
    let table = build_frame_table(segs.movi.as_slice(), opt.audio);
    proof {
        lemma_table_wf(segs.movi@, opt.audio);
    }
    match run_step(table.as_slice(), opt) {
        Ok(frames) => {
            proof {
                assert(all_fit(table@, segs.movi@.len() as nat)) by {
                    assert forall|k: int| 0 <= k < table@.len() implies (#[trigger] table@[
                        k
                    ]).fits(segs.movi@.len() as nat) by {
                        assert(table@[k].offset + table@[k].size <= segs.movi@.len());
                    }
                }
                lemma_step_fits(table@, frames@, *opt, segs.movi@.len() as nat);
            }
            let out = assemble_output(
                segs.header.as_slice(),
                segs.movi.as_slice(),
                segs.index.as_slice(),
                frames.as_slice(),
            );
            Ok(out)
        },
        Err(e) => Err(e),
    }
}

/// ROUND TRIP: a step that filters nothing (unit absolute threshold, no
/// relative bound, no seeding), transforms with the identity mode and does
/// not multiply hands the assembler the full unfiltered raw table, and the
/// assembled container is the original bytes, byte for byte — provided the
/// frame-data segment opens with the marker followed directly by the first
/// tag, so that the frames tile everything after the marker.
pub proof fn lemma_round_trip(header: Seq<u8>, movi: Seq<u8>, index: Seq<u8>, opt: Opt)
    requires
        opt.mode == Mode::Void,
        opt.kill_milli >= 1000,
        opt.kill_rel_milli is None,
        !opt.firstframe,
        opt.multiply <= 1,
        4 <= movi.len() <= usize::MAX,
        movi.subrange(0, 4) == movi_marker(),
        frame_table_spec(movi, opt.audio).len() > 0,
        frame_table_spec(movi, opt.audio)[0].offset == 4,
    ensures
        step_rel(frame_table_spec(movi, opt.audio), frame_table_spec(movi, opt.audio), opt),
        forall|out: Seq<Frame>|
            #[trigger] step_rel(frame_table_spec(movi, opt.audio), out, opt) ==> assemble_spec(
                header,
                movi,
                index,
                out,
            ) == header + movi + index,
{
    let table = frame_table_spec(movi, opt.audio);
    lemma_select_all(table, opt);
    assert(transform_rel(table, table, opt));
    assert(step_rel(table, table, opt));
    lemma_table_wf(movi, opt.audio);
    lemma_frames_bytes_cover(movi, table);
    assert forall|out: Seq<Frame>| #[trigger] step_rel(table, out, opt) implies assemble_spec(
        header,
        movi,
        index,
        out,
    ) == header + movi + index by {
        let mid = choose|mid: Seq<Frame>|
            {
                &&& #[trigger] transform_rel(select_spec(table, opt), mid, opt)
                &&& out == if opt.multiply > 1 {
                    multiply_spec(mid, opt.multiply as nat)
                } else {
                    mid
                }
            };
        assert(out == table);
        assert(movi_marker() + movi.subrange(4, movi.len() as int) =~= movi);
        assert((header + movi_marker() + frames_bytes(movi, table) + index) =~= (header + movi
            + index));
    }
}

} // verus!
