//! Transform Engine: the catalogue of reordering/duplication transforms on a
//! kept-frame sequence, and the multiply stage.

use vstd::prelude::*;
use crate::frame::Frame;
use crate::opt::{ConfigFault, EngineError, Mode, Opt};
use rand::seq::SliceRandom;

verus! {

/// `count` consecutive copies of one frame.
pub open spec fn repeat_frame(f: Frame, count: nat) -> Seq<Frame> {
    Seq::new(count, |i: int| f)
}

/// Swap the two frames of each consecutive non-overlapping pair; an odd
/// trailing frame stays in place.
pub open spec fn invert_spec(s: Seq<Frame>) -> Seq<Frame> {
    Seq::new(
        s.len(),
        |i: int|
            if i % 2 == 0 {
                if i + 1 < s.len() {
                    s[i + 1]
                } else {
                    s[i]
                }
            } else {
                s[i - 1]
            },
    )
}

/// Split at `position`, and put `count` copies of the frame at `position`
/// between the halves in place of that one frame.
pub open spec fn bloom_spec(s: Seq<Frame>, count: nat, position: int) -> Seq<Frame> {
    s.subrange(0, position) + repeat_frame(s[position], count) + s.subrange(
        position + 1,
        s.len() as int,
    )
}

/// The tail of the pulse output from input index `j` on: every index that is
/// a multiple of `rhythm` is emitted `count` times instead of once.
pub open spec fn pulse_from(s: Seq<Frame>, count: nat, rhythm: nat, j: int) -> Seq<Frame>
    decreases s.len() - j,
{
    if j < 0 || j >= s.len() {
        Seq::empty()
    } else {
        let here = if j % (rhythm as int) == 0 {
            repeat_frame(s[j], count)
        } else {
            seq![s[j]]
        };
        here + pulse_from(s, count, rhythm, j + 1)
    }
}

/// The whole pulse output.
pub open spec fn pulse_spec(s: Seq<Frame>, count: nat, rhythm: nat) -> Seq<Frame> {
    pulse_from(s, count, rhythm, 0)
}

/// The tail of the overlap output from input index `j` on: of each chunk of
/// `rhythm` consecutive frames only the first `count` are kept.
pub open spec fn overlap_from(s: Seq<Frame>, count: nat, rhythm: nat, j: int) -> Seq<Frame>
    decreases s.len() - j,
{
    if j < 0 || j >= s.len() {
        Seq::empty()
    } else {
        let here = if j % (rhythm as int) < count {
            seq![s[j]]
        } else {
            Seq::empty()
        };
        here + overlap_from(s, count, rhythm, j + 1)
    }
}

/// The whole overlap output.
pub open spec fn overlap_spec(s: Seq<Frame>, count: nat, rhythm: nat) -> Seq<Frame> {
    overlap_from(s, count, rhythm, 0)
}

/// Each frame replaced by `m` consecutive copies, in input order.
pub open spec fn multiply_spec(s: Seq<Frame>, m: nat) -> Seq<Frame> {
    Seq::new(s.len() * m, |i: int| s[i / (m as int)])
}

/// A copy of a frame slice.
fn frames_to_vec(s: &[Frame]) -> (r: Vec<Frame>)
    ensures
        r@ == s@,
{
    let n = s.len();
    let mut out: Vec<Frame> = Vec::new();
    let mut i: usize = 0;
    while i < n
        invariant
            n == s@.len(),
            0 <= i <= n,
            out@ =~= s@.subrange(0, i as int),
        decreases n - i,
    {
        out.push(s[i]);
        assert(out@ =~= s@.subrange(0, i + 1));
        i = i + 1;
    }
    assert(out@ =~= s@);
    out
}

/// Relies on rand's `SliceRandom::shuffle`: it permutes the slice in place
/// (one uniform-random permutation per call), so the multiset of frames is
/// unchanged.
#[verifier::external_body]
fn shuffle_frames(frames: &mut Vec<Frame>)
    ensures
        final(frames)@.to_multiset() == old(frames)@.to_multiset(),
{
    frames.as_mut_slice().shuffle(&mut rand::rng());
}

/// Relies on rand's `random_range` over an inclusive range: the drawn value
/// lies within the given bounds. Nothing else can be said of a random draw.
#[verifier::external_body]
fn draw_in_range(lo: i64, hi: i64) -> (r: i64)
    requires
        lo <= hi,
    ensures
        lo <= r <= hi,
{
    rand::random_range(lo..=hi)
}

/// One uniform-random permutation of the frames.
fn random_frames(s: &[Frame]) -> (r: Vec<Frame>)
    ensures
        r@.to_multiset() == s@.to_multiset(),
{
    let mut v = frames_to_vec(s);
    shuffle_frames(&mut v);
    v
}

/// The full order reversal.
fn reverse_frames(s: &[Frame]) -> (r: Vec<Frame>)
    ensures
        r@ == s@.reverse(),
{
    let n = s.len();
    let mut out: Vec<Frame> = Vec::new();
    let mut i: usize = 0;
    while i < n
        invariant
            n == s@.len(),
            0 <= i <= n,
            out@.len() == i,
            forall|k: int| 0 <= k < i ==> out@[k] == s@[n - 1 - k],
        decreases n - i,
    {
        out.push(s[n - 1 - i]);
        i = i + 1;
    }
    assert(out@ =~= s@.reverse());
    out
}

/// Swap each consecutive non-overlapping pair.
fn invert_frames(s: &[Frame]) -> (r: Vec<Frame>)
    ensures
        r@ == invert_spec(s@),
{
    let n = s.len();
    let mut out: Vec<Frame> = Vec::new();
    let mut i: usize = 0;
    while i < n
        invariant
            n == s@.len(),
            0 <= i <= n,
            out@.len() == i,
            forall|k: int| 0 <= k < i ==> out@[k] == invert_spec(s@)[k],
        decreases n - i,
    {
        let f = if i % 2 == 0 {
            if i + 1 < n {
                s[i + 1]
            } else {
                s[i]
            }
        } else {
            s[i - 1]
        };
        out.push(f);
        i = i + 1;
    }
    assert(out@ =~= invert_spec(s@));
    out
}

/// Replace the frame at `position` by `count` copies of itself.
fn bloom_frames(s: &[Frame], count: usize, position: usize) -> (r: Vec<Frame>)
    requires
        position < s@.len(),
    ensures
        r@ == bloom_spec(s@, count as nat, position as int),
{
    let n = s.len();
    let mut out: Vec<Frame> = Vec::new();
    let mut i: usize = 0;
    while i < position
        invariant
            n == s@.len(),
            position < n,
            0 <= i <= position,
            out@ =~= s@.subrange(0, i as int),
        decreases position - i,
    {
        out.push(s[i]);
        assert(out@ =~= s@.subrange(0, i + 1));
        i = i + 1;
    }
    let mut c: usize = 0;
    while c < count
        invariant
            n == s@.len(),
            position < n,
            0 <= c <= count,
            out@ =~= s@.subrange(0, position as int) + repeat_frame(s@[position as int], c as nat),
        decreases count - c,
    {
        out.push(s[position]);
        assert(out@ =~= s@.subrange(0, position as int) + repeat_frame(s@[position as int], (c
            + 1) as nat));
        c = c + 1;
    }
    let mut j: usize = position + 1;
    while j < n
        invariant
            n == s@.len(),
            position < n,
            position + 1 <= j <= n,
            out@ =~= s@.subrange(0, position as int) + repeat_frame(s@[position as int],
                count as nat) + s@.subrange(position + 1, j as int),
        decreases n - j,
    {
        out.push(s[j]);
        assert(out@ =~= s@.subrange(0, position as int) + repeat_frame(s@[position as int],
            count as nat) + s@.subrange(position + 1, j + 1));
        j = j + 1;
    }
    assert(out@ =~= bloom_spec(s@, count as nat, position as int));
    out
}

/// Keep only the first `count` frames of each chunk of `rhythm` frames.
fn overlap_frames(s: &[Frame], count: usize, rhythm: usize) -> (r: Vec<Frame>)
    requires
        rhythm >= 1,
    ensures
        r@ == overlap_spec(s@, count as nat, rhythm as nat),
{
    let n = s.len();
    let mut out: Vec<Frame> = Vec::new();
    let mut i: usize = 0;
    proof {
        assert(overlap_spec(s@, count as nat, rhythm as nat) == Seq::<Frame>::empty()
            + overlap_from(s@, count as nat, rhythm as nat, 0));
        assert(Seq::<Frame>::empty() + overlap_from(s@, count as nat, rhythm as nat, 0)
            =~= overlap_from(s@, count as nat, rhythm as nat, 0));
    }
    while i < n
        invariant
            n == s@.len(),
            rhythm >= 1,
            0 <= i <= n,
            overlap_spec(s@, count as nat, rhythm as nat) == out@ + overlap_from(s@, count as nat,
                rhythm as nat, i as int),
        decreases n - i,
    {
        let ghost rest = overlap_from(s@, count as nat, rhythm as nat, i + 1);
        if i % rhythm < count {
            proof {
                assert(out@ + (seq![s@[i as int]] + rest) =~= (out@ + seq![s@[i as int]]) + rest);
            }
            out.push(s[i]);
        } else {
            proof {
                assert(out@ + (Seq::<Frame>::empty() + rest) =~= out@ + rest);
            }
        }
        i = i + 1;
    }
    proof {
        assert(overlap_from(s@, count as nat, rhythm as nat, n as int) =~= Seq::<Frame>::empty());
        assert(out@ + Seq::<Frame>::empty() =~= out@);
    }
    out
}

/// Emit every `rhythm`-th frame `count` times instead of once.
fn pulse_frames(s: &[Frame], count: usize, rhythm: usize) -> (r: Vec<Frame>)
    requires
        rhythm >= 1,
    ensures
        r@ == pulse_spec(s@, count as nat, rhythm as nat),
{
    let n = s.len();
    let mut out: Vec<Frame> = Vec::new();
    let mut i: usize = 0;
    proof {
        assert(pulse_spec(s@, count as nat, rhythm as nat) == Seq::<Frame>::empty() + pulse_from(
            s@, count as nat, rhythm as nat, 0));
        assert(Seq::<Frame>::empty() + pulse_from(s@, count as nat, rhythm as nat, 0)
            =~= pulse_from(s@, count as nat, rhythm as nat, 0));
    }
    while i < n
        invariant
            n == s@.len(),
            rhythm >= 1,
            0 <= i <= n,
            pulse_spec(s@, count as nat, rhythm as nat) == out@ + pulse_from(s@, count as nat,
                rhythm as nat, i as int),
        decreases n - i,
    {
        let ghost rest = pulse_from(s@, count as nat, rhythm as nat, i + 1);
        if i % rhythm == 0 {
            let mut c: usize = 0;
            let ghost base = out@;
            while c < count
                invariant
                    n == s@.len(),
                    0 <= i < n,
                    0 <= c <= count,
                    out@ =~= base + repeat_frame(s@[i as int], c as nat),
                decreases count - c,
            {
                out.push(s[i]);
                assert(out@ =~= base + repeat_frame(s@[i as int], (c + 1) as nat));
                c = c + 1;
            }
            proof {
                assert(out@ =~= base + repeat_frame(s@[i as int], count as nat));
                assert(base + (repeat_frame(s@[i as int], count as nat) + rest) =~= (base
                    + repeat_frame(s@[i as int], count as nat)) + rest);
            }
        } else {
            proof {
                assert(out@ + (seq![s@[i as int]] + rest) =~= (out@ + seq![s@[i as int]]) + rest);
            }
            out.push(s[i]);
        }
        i = i + 1;
    }
    proof {
        assert(pulse_from(s@, count as nat, rhythm as nat, n as int) =~= Seq::<Frame>::empty());
        assert(out@ + Seq::<Frame>::empty() =~= out@);
    }
    out
}

/// Wrap a signed draw into `[0, n)`: negative draws wrap to the tail.
fn wrap_index(d: i64, n: usize) -> (r: usize)
    requires
        n >= 1,
    ensures
        0 <= r < n,
{
    if d >= 0 {
        let rem = (d as u64) % (n as u64);
        rem as usize
    } else {
        let neg = (-(d as i128)) as u128;
        let rem = neg % (n as u128);
        if rem == 0 {
            0
        } else {
            (n as u128 - rem) as usize
        }
    }
}

/// For each output slot, draw a signed offset uniformly from
/// `[-position, +position]`, wrap it modulo the sequence length and copy the
/// frame at that index. The output has the input's length and holds only
/// input frames; which ones is up to the random source.
fn jiggle_frames(s: &[Frame], position: usize) -> (r: Vec<Frame>)
    ensures
        r@.len() == s@.len(),
        forall|i: int| 0 <= i < r@.len() ==> s@.contains(#[trigger] r@[i]),
{
    let n = s.len();
    let mut out: Vec<Frame> = Vec::new();
    let mut i: usize = 0;
    while i < n
        invariant
            n == s@.len(),
            0 <= i <= n,
            out@.len() == i,
            forall|k: int| 0 <= k < i ==> s@.contains(#[trigger] out@[k]),
        decreases n - i,
    {
        let spread: i64 = if position > (i64::MAX as usize) {
            i64::MAX
        } else {
            position as i64
        };
        let d = draw_in_range(-spread, spread);
        let idx = wrap_index(d, n);
        out.push(s[idx]);
        proof {
            assert(s@[idx as int] == out@.last());
        }
        i = i + 1;
    }
    out
}

/// Each frame replaced by `m` consecutive copies, preserving relative order.
pub fn multiply_frames(s: &[Frame], m: usize) -> (r: Vec<Frame>)
    requires
        m >= 1,
    ensures
        r@ == multiply_spec(s@, m as nat),
{
    let n = s.len();
    let mut out: Vec<Frame> = Vec::new();
    let mut i: usize = 0;
    while i < n
        invariant
            n == s@.len(),
            m >= 1,
            0 <= i <= n,
            out@.len() == i * m,
            forall|k: int| 0 <= k < out@.len() ==> out@[k] == s@[k / (m as int)],
        decreases n - i,
    {
        let mut c: usize = 0;
        while c < m
            invariant
                n == s@.len(),
                m >= 1,
                0 <= i < n,
                0 <= c <= m,
                out@.len() == i * m + c,
                forall|k: int| 0 <= k < out@.len() ==> out@[k] == s@[k / (m as int)],
            decreases m - c,
        {
            proof {
                assert((i * m + c) / (m as int) == i) by (nonlinear_arith)
                    requires
                        m >= 1,
                        0 <= c < m,
                        0 <= i;
            }
            out.push(s[i]);
            c = c + 1;
        }
        proof {
            assert((i + 1) * m == i * m + m) by (nonlinear_arith);
        }
        i = i + 1;
    }
    proof {
        assert(out@ =~= multiply_spec(s@, m as nat));
    }
    out
}

/// A step's transform configuration is valid for its input: bloom must index
/// a frame, and pulse and overlap need a nonzero rhythm.
pub open spec fn transform_ok(s: Seq<Frame>, opt: Opt) -> bool {
    match opt.mode {
        Mode::Bloom => opt.positframes < s.len(),
        Mode::Pulse => opt.positframes >= 1,
        Mode::Overlap => opt.positframes >= 1,
        _ => true,
    }
}

/// What a valid transform returns, for the modes whose output is a function
/// of the input alone.
pub open spec fn transform_result(s: Seq<Frame>, opt: Opt) -> Seq<Frame> {
    match opt.mode {
        Mode::Void => s,
        Mode::Reverse => s.reverse(),
        Mode::Invert => invert_spec(s),
        Mode::Bloom => bloom_spec(s, opt.countframes as nat, opt.positframes as int),
        Mode::Pulse => pulse_spec(s, opt.countframes as nat, opt.positframes as nat),
        Mode::Overlap => overlap_spec(s, opt.countframes as nat, opt.positframes as nat),
        Mode::Random => s,  // a permutation of s; see process_frames
        Mode::Jiggle => s,  // frames drawn from s; see process_frames
    }
}

/// Apply the step's named transform to the kept frames and return the new
/// sequence together with its frame sizes.
///
/// The deterministic modes return exactly `transform_result`; random returns
/// some permutation of the input, and jiggle returns a sequence of input
/// frames of the input's length. An invalid configuration is the step's
/// error: bloom with its position out of range, pulse or overlap with a zero
/// rhythm.
pub fn process_frames(clean_frames: &[Frame], opt: &Opt) -> (r: Result<
    (Vec<Frame>, Vec<usize>),
    EngineError,
>)
    ensures
        r is Ok <==> transform_ok(clean_frames@, *opt),
        match r {
            Result::Ok((frames, sizes)) => {
                &&& match opt.mode {
                    Mode::Random => frames@.to_multiset() == clean_frames@.to_multiset(),
                    Mode::Jiggle => frames@.len() == clean_frames@.len() && (forall|i: int|
                        0 <= i < frames@.len() ==> clean_frames@.contains(#[trigger] frames@[i])),
                    _ => frames@ == transform_result(clean_frames@, *opt),
                }
                &&& sizes@ == frames@.map_values(|f: Frame| f.size)
            },
            Result::Err(e) => e == EngineError::InvalidConfiguration(
                if opt.mode == Mode::Bloom {
                    ConfigFault::BloomPositionOutOfRange
                } else {
                    ConfigFault::ZeroRhythm
                },
            ),
        },
{
    let frames: Vec<Frame> = match opt.mode {
        Mode::Void => frames_to_vec(clean_frames),
        Mode::Random => random_frames(clean_frames),
        Mode::Reverse => reverse_frames(clean_frames),
        Mode::Invert => invert_frames(clean_frames),
        Mode::Bloom => {
            if opt.positframes < clean_frames.len() {
                bloom_frames(clean_frames, opt.countframes, opt.positframes)
            } else {
                return Err(
                    EngineError::InvalidConfiguration(ConfigFault::BloomPositionOutOfRange),
                );
            }
        },
        Mode::Pulse => {
            if opt.positframes >= 1 {
                pulse_frames(clean_frames, opt.countframes, opt.positframes)
            } else {
                return Err(EngineError::InvalidConfiguration(ConfigFault::ZeroRhythm));
            }
        },
        Mode::Jiggle => jiggle_frames(clean_frames, opt.positframes),
        Mode::Overlap => {
            if opt.positframes >= 1 {
                overlap_frames(clean_frames, opt.countframes, opt.positframes)
            } else {
                return Err(EngineError::InvalidConfiguration(ConfigFault::ZeroRhythm));
            }
        },
    };
    let sizes = sizes_of(&frames);
    Ok((frames, sizes))
}

/// The sizes of the frames, in order.
fn sizes_of(frames: &Vec<Frame>) -> (r: Vec<usize>)
    ensures
        r@ == frames@.map_values(|f: Frame| f.size),
{
    let n = frames.len();
    let mut out: Vec<usize> = Vec::new();
    let mut i: usize = 0;
    while i < n
        invariant
            n == frames@.len(),
            0 <= i <= n,
            out@.len() == i,
            forall|k: int| 0 <= k < i ==> out@[k] == frames@.map_values(|f: Frame| f.size)[k],
        decreases n - i,
    {
        out.push(frames[i].size);
        i = i + 1;
    }
    assert(out@ =~= frames@.map_values(|f: Frame| f.size));
    out
}

/// Reversing twice restores the frame sequence.
pub proof fn lemma_reverse_involution(s: Seq<Frame>)
    ensures
        s.reverse().reverse() == s,
{
    assert(s.reverse().reverse() =~= s);
}

/// Inverting pairs twice restores a frame sequence of even length.
pub proof fn lemma_invert_involution(s: Seq<Frame>)
    requires
        s.len() % 2 == 0,
    ensures
        invert_spec(invert_spec(s)) == s,
{
    let t = invert_spec(s);
    assert forall|i: int| 0 <= i < s.len() implies invert_spec(t)[i] == s[i] by {
        if i % 2 == 0 {
            assert(i + 1 < s.len());
            assert(t[i + 1] == s[i]);
        } else {
            assert(t[i - 1] == s[i]);
        }
    }
    assert(invert_spec(invert_spec(s)) =~= s);
}

/// Multiplying by `m` yields `m` times the length, and copy `t` of input
/// frame `a` stands at output slot `a·m + t`: each frame's copies form one
/// consecutive block and the blocks keep the input order.
pub proof fn lemma_multiply_block(s: Seq<Frame>, m: nat, a: int, t: int)
    requires
        m >= 1,
        0 <= a < s.len(),
        0 <= t < m,
    ensures
        multiply_spec(s, m).len() == s.len() * m,
        multiply_spec(s, m)[a * m + t] == s[a],
{
    assert((a * m + t) / (m as int) == a) by (nonlinear_arith)
        requires
            m >= 1,
            0 <= t < m,
            0 <= a;
    assert(0 <= a * m + t < s.len() * m) by (nonlinear_arith)
        requires
            m >= 1,
            0 <= t < m,
            0 <= a < s.len();
}

/// Bloom lengthens the sequence by one less than the copy count: the copies
/// replace the frame at the bloom position.
pub proof fn lemma_bloom_len(s: Seq<Frame>, count: nat, position: int)
    requires
        0 <= position < s.len(),
    ensures
        bloom_spec(s, count, position).len() == s.len() + count - 1,
{
}

/// The number of multiples of `rhythm` in `[j, hi)`.
pub open spec fn multiples_in(rhythm: nat, j: int, hi: int) -> nat
    decreases hi - j,
{
    if j < 0 || j >= hi {
        0
    } else {
        (if j % (rhythm as int) == 0 {
            1nat
        } else {
            0nat
        }) + multiples_in(rhythm, j + 1, hi)
    }
}

/// Positions that are no multiples of the rhythm do not change the count.
proof fn lemma_multiples_skip(rhythm: nat, q: int, stop: int, hi: int)
    requires
        rhythm >= 1,
        0 <= q <= stop,
        forall|t: int| q <= t < stop ==> #[trigger] (t % (rhythm as int)) != 0,
    ensures
        multiples_in(rhythm, q, hi) == multiples_in(rhythm, stop, hi),
    decreases stop - q,
{
    if q < stop {
        assert(q % (rhythm as int) != 0);
        lemma_multiples_skip(rhythm, q + 1, stop, hi);
        if q >= hi {
            assert(multiples_in(rhythm, q, hi) == 0);
            assert(multiples_in(rhythm, q + 1, hi) == 0);
        }
    }
}

/// From a multiple of the rhythm, the count of multiples up to `hi` is the
/// ceiling of the remaining length divided by the rhythm.
proof fn lemma_multiples_count(rhythm: nat, j: int, hi: int)
    requires
        rhythm >= 1,
        0 <= j <= hi,
        j % (rhythm as int) == 0,
    ensures
        multiples_in(rhythm, j, hi) == (hi - j + rhythm - 1) / (rhythm as int),
    decreases hi - j,
{
    let r = rhythm as int;
    if j >= hi {
        assert((hi - j + r - 1) / r == 0) by (nonlinear_arith)
            requires
                r >= 1,
                hi == j;
    } else {
        assert(multiples_in(rhythm, j, hi) == 1 + multiples_in(rhythm, j + 1, hi));
        assert forall|t: int| j + 1 <= t < j + r implies #[trigger] (t % r) != 0 by {
            assert((j + (t - j)) % r == (t - j) % r) by (nonlinear_arith)
                requires
                    r >= 1,
                    j % r == 0,
                    0 < t - j < r;
            assert((t - j) % r == t - j) by (nonlinear_arith)
                requires
                    r >= 1,
                    0 < t - j < r;
        }
        lemma_multiples_skip(rhythm, j + 1, j + r, hi);
        if j + r <= hi {
            assert((j + r) % r == 0) by (nonlinear_arith)
                requires
                    r >= 1,
                    j % r == 0;
            lemma_multiples_count(rhythm, j + r, hi);
            assert((hi - j + r - 1) / r == 1 + (hi - (j + r) + r - 1) / r) by (nonlinear_arith)
                requires
                    r >= 1,
                    hi - j >= r;
        } else {
            assert(multiples_in(rhythm, j + r, hi) == 0);
            assert((hi - j + r - 1) / r == 1) by (nonlinear_arith)
                requires
                    r >= 1,
                    0 < hi - j < r;
        }
    }
}

/// The length of the pulse tail from `j` on: the remaining frames, plus
/// `count - 1` extra copies for every remaining multiple of the rhythm.
proof fn lemma_pulse_from_len(s: Seq<Frame>, count: nat, rhythm: nat, j: int)
    requires
        rhythm >= 1,
        0 <= j <= s.len(),
    ensures
        pulse_from(s, count, rhythm, j).len() == (s.len() - j) + (count as int - 1)
            * multiples_in(rhythm, j, s.len() as int),
    decreases s.len() - j,
{
    if j < s.len() {
        lemma_pulse_from_len(s, count, rhythm, j + 1);
        let m1 = multiples_in(rhythm, j + 1, s.len() as int);
        let rest = pulse_from(s, count, rhythm, j + 1);
        assert(rest.len() == (s.len() - (j + 1)) + (count as int - 1) * m1);
        if j % (rhythm as int) == 0 {
            assert(pulse_from(s, count, rhythm, j) == repeat_frame(s[j], count) + rest);
            assert(pulse_from(s, count, rhythm, j).len() == count + rest.len());
            assert(multiples_in(rhythm, j, s.len() as int) == 1 + m1);
            assert((count as int - 1) * (1 + m1) == (count as int - 1) + (count as int - 1)
                * m1) by (nonlinear_arith);
            assert(pulse_from(s, count, rhythm, j).len() == (s.len() - j) + (count as int - 1) * (
            1 + m1));
        } else {
            assert(pulse_from(s, count, rhythm, j) == seq![s[j]] + rest);
            assert(pulse_from(s, count, rhythm, j).len() == 1 + rest.len());
            assert(multiples_in(rhythm, j, s.len() as int) == m1);
            assert(pulse_from(s, count, rhythm, j).len() == (s.len() - j) + (count as int - 1)
                * m1);
        }
    } else {
        assert(pulse_from(s, count, rhythm, j).len() == 0);
        assert(multiples_in(rhythm, j, s.len() as int) == 0);
        assert((count as int - 1) * 0 == 0) by (nonlinear_arith);
    }
}

/// Pulse lengthens the sequence by `count - 1` frames for every rhythm slot:
/// the output length is the input length plus
/// `(count - 1) · ceil(len / rhythm)`.
pub proof fn lemma_pulse_len(s: Seq<Frame>, count: nat, rhythm: nat)
    requires
        rhythm >= 1,
    ensures
        pulse_spec(s, count, rhythm).len() == s.len() + (count as int - 1) * ((s.len() + rhythm
            - 1) as int / (rhythm as int)),
{
    lemma_pulse_from_len(s, count, rhythm, 0);
    lemma_multiples_count(rhythm, 0, s.len() as int);
}

} // verus!
