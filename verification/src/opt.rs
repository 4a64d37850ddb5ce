//! Engine configuration: the transform catalogue, per-step options and the
//! error taxonomy.

use vstd::prelude::*;
use crate::bytes::bytes_eq;

verus! {

use vstd::string::StringSliceAdditionalSpecFns;

/// The named reordering/duplication transform applied to the kept frames.
#[derive(Clone, Copy, Debug, PartialEq, Eq, Structural)]
pub enum Mode {
    /// Identity.
    Void,
    /// One uniform-random permutation per call.
    Random,
    /// Full order reversal.
    Reverse,
    /// Swap the two frames of each consecutive non-overlapping pair.
    Invert,
    /// Replace the frame at `positframes` by `countframes` copies of itself.
    Bloom,
    /// Emit every `positframes`-th frame `countframes` times.
    Pulse,
    /// Copy, for each slot, a frame drawn from around the current position.
    Jiggle,
    /// Chunk into runs of `positframes`, keep the first `countframes` of each.
    Overlap,
}

/// A fault in a step's configuration: the engine cannot run the step.
#[derive(Clone, Copy, Debug, PartialEq, Eq, Structural)]
pub enum ConfigFault {
    /// Bloom's position does not index a frame of its input.
    BloomPositionOutOfRange,
    /// A rhythm of zero where a modulo or a chunking is required.
    ZeroRhythm,
}

/// Everything the engine can fail with while working on in-memory bytes.
#[derive(Clone, Copy, Debug, PartialEq, Eq, Structural)]
pub enum EngineError {
    /// A step's configuration is invalid for its input.
    InvalidConfiguration(ConfigFault),
    /// Container analysis needed a marker that the bytes do not contain.
    MarkerNotFound,
}

/// One step's configuration.
///
/// The two kill thresholds are exact rationals in thousandths: `kill_milli`
/// bounds a frame's size by `kill_milli / 1000` of the largest raw frame, and
/// `kill_rel_milli` bounds it by `1 + kill_rel_milli / 1000` times the
/// previous raw frame's size. `kill_rel_milli == None` leaves the relative
/// size unbounded.
#[derive(Clone, Copy, Debug)]
pub struct Opt {
    pub mode: Mode,
    pub countframes: usize,
    pub positframes: usize,
    pub audio: bool,
    pub firstframe: bool,
    pub kill_milli: u64,
    pub kill_rel_milli: Option<i64>,
    pub multiply: usize,
    pub preview: bool,
}

impl Default for Opt {
    /// The defaults of the command line: void mode, count and position 1,
    /// kill 0.7, relative kill 0.15, no audio, no seeding, no preview.
    fn default() -> (r: Opt)
        ensures
            r.mode == Mode::Void,
            r.countframes == 1,
            r.positframes == 1,
            !r.audio,
            !r.firstframe,
            r.kill_milli == 700,
            r.kill_rel_milli == Some(150i64),
            r.multiply == 1,
            !r.preview,
    {
        Opt {
            mode: Mode::Void,
            countframes: 1,
            positframes: 1,
            audio: false,
            firstframe: false,
            kill_milli: 700,
            kill_rel_milli: Some(150),
            multiply: 1,
            preview: false,
        }
    }
}

/// The catalogue entry a mode name denotes, or `None` for an unrecognised
/// name. Names are matched on their UTF-8 bytes.
pub open spec fn spec_mode_of(bs: Seq<u8>) -> Option<Mode> {
    if bs =~= spec_name_bytes(Mode::Void) {
        Some(Mode::Void)
    } else if bs =~= spec_name_bytes(Mode::Random) {
        Some(Mode::Random)
    } else if bs =~= spec_name_bytes(Mode::Reverse) {
        Some(Mode::Reverse)
    } else if bs =~= spec_name_bytes(Mode::Invert) {
        Some(Mode::Invert)
    } else if bs =~= spec_name_bytes(Mode::Bloom) {
        Some(Mode::Bloom)
    } else if bs =~= spec_name_bytes(Mode::Pulse) {
        Some(Mode::Pulse)
    } else if bs =~= spec_name_bytes(Mode::Jiggle) {
        Some(Mode::Jiggle)
    } else if bs =~= spec_name_bytes(Mode::Overlap) {
        Some(Mode::Overlap)
    } else {
        None
    }
}

/// The UTF-8 bytes of a mode's name.
pub open spec fn spec_name_bytes(m: Mode) -> Seq<u8> {
    match m {
        Mode::Void => seq![0x76u8, 0x6fu8, 0x69u8, 0x64u8],
        Mode::Random => seq![0x72u8, 0x61u8, 0x6eu8, 0x64u8, 0x6fu8, 0x6du8],
        Mode::Reverse => seq![0x72u8, 0x65u8, 0x76u8, 0x65u8, 0x72u8, 0x73u8, 0x65u8],
        Mode::Invert => seq![0x69u8, 0x6eu8, 0x76u8, 0x65u8, 0x72u8, 0x74u8],
        Mode::Bloom => seq![0x62u8, 0x6cu8, 0x6fu8, 0x6fu8, 0x6du8],
        Mode::Pulse => seq![0x70u8, 0x75u8, 0x6cu8, 0x73u8, 0x65u8],
        Mode::Jiggle => seq![0x6au8, 0x69u8, 0x67u8, 0x67u8, 0x6cu8, 0x65u8],
        Mode::Overlap => seq![0x6fu8, 0x76u8, 0x65u8, 0x72u8, 0x6cu8, 0x61u8, 0x70u8],
    }
}

impl Mode {
    /// The UTF-8 bytes of this mode's name.
    fn name_bytes(self) -> (r: Vec<u8>)
        ensures
            r@ == spec_name_bytes(self),
    {
        let mut v: Vec<u8> = Vec::new();
        match self {
            Mode::Void => {
                v.push(0x76);
                v.push(0x6f);
                v.push(0x69);
                v.push(0x64);
            },
            Mode::Random => {
                v.push(0x72);
                v.push(0x61);
                v.push(0x6e);
                v.push(0x64);
                v.push(0x6f);
                v.push(0x6d);
            },
            Mode::Reverse => {
                v.push(0x72);
                v.push(0x65);
                v.push(0x76);
                v.push(0x65);
                v.push(0x72);
                v.push(0x73);
                v.push(0x65);
            },
            Mode::Invert => {
                v.push(0x69);
                v.push(0x6e);
                v.push(0x76);
                v.push(0x65);
                v.push(0x72);
                v.push(0x74);
            },
            Mode::Bloom => {
                v.push(0x62);
                v.push(0x6c);
                v.push(0x6f);
                v.push(0x6f);
                v.push(0x6d);
            },
            Mode::Pulse => {
                v.push(0x70);
                v.push(0x75);
                v.push(0x6c);
                v.push(0x73);
                v.push(0x65);
            },
            Mode::Jiggle => {
                v.push(0x6a);
                v.push(0x69);
                v.push(0x67);
                v.push(0x67);
                v.push(0x6c);
                v.push(0x65);
            },
            Mode::Overlap => {
                v.push(0x6f);
                v.push(0x76);
                v.push(0x65);
                v.push(0x72);
                v.push(0x6c);
                v.push(0x61);
                v.push(0x70);
            },
        }
        assert(v@ =~= spec_name_bytes(self));
        v
    }

    /// Look a mode name up in the catalogue. `None` means the name is
    /// unrecognised: the engine then behaves as `Void` and the caller owes a
    /// diagnostic, never a failure.
    pub fn from_name(name: &str) -> (r: Option<Mode>)
        ensures
            r == spec_mode_of(name.spec_bytes()),
    {
        let bs = name.as_bytes();
        let modes = [
            Mode::Void,
            Mode::Random,
            Mode::Reverse,
            Mode::Invert,
            Mode::Bloom,
            Mode::Pulse,
            Mode::Jiggle,
            Mode::Overlap,
        ];
        let mut k: usize = 0;
        while k < 8
            invariant
                bs@ == name.spec_bytes(),
                0 <= k <= 8,
                modes@.len() == 8,
                modes@ == seq![
                    Mode::Void,
                    Mode::Random,
                    Mode::Reverse,
                    Mode::Invert,
                    Mode::Bloom,
                    Mode::Pulse,
                    Mode::Jiggle,
                    Mode::Overlap,
                ],
                forall|j: int| 0 <= j < k ==> !(bs@ =~= spec_name_bytes(modes@[j])),
            decreases 8 - k,
        {
            let nb = modes[k].name_bytes();
            if bytes_eq(bs, nb.as_slice()) {
                return Some(modes[k]);
            }
            k = k + 1;
        }
        None
    }
}

} // verus!
