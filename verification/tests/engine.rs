//! Transform, selector and pipeline behaviour on concrete frame tables.

use tomatwo::frame::{Frame, FrameType};
use tomatwo::opt::{ConfigFault, EngineError, Mode, Opt};
use tomatwo::pipeline::{run_step, simulate_processing};
use tomatwo::selector::select_frames;
use tomatwo::transform::{multiply_frames, process_frames};

fn table(sizes: &[usize]) -> Vec<Frame> {
    let mut frames = Vec::new();
    let mut offset = 0;
    let mut prev = 0;
    for &size in sizes {
        frames.push(Frame { offset, size, prev_size: prev, frame_type: FrameType::Video });
        offset += size;
        prev = size;
    }
    frames
}

fn offsets(frames: &[Frame]) -> Vec<usize> {
    frames.iter().map(|f| f.offset).collect()
}

fn opt_with(mode: Mode) -> Opt {
    Opt {
        mode,
        kill_milli: 1000,
        kill_rel_milli: None,
        firstframe: false,
        ..Opt::default()
    }
}

#[test]
fn void_is_identity() {
    let frames = table(&[10, 20, 30]);
    let (out, sizes) = process_frames(&frames, &opt_with(Mode::Void)).unwrap();
    assert_eq!(offsets(&out), offsets(&frames));
    assert_eq!(sizes, vec![10, 20, 30]);
}

#[test]
fn reverse_reverses() {
    let frames = table(&[10, 20, 30]);
    let (out, _) = process_frames(&frames, &opt_with(Mode::Reverse)).unwrap();
    assert_eq!(offsets(&out), vec![30, 10, 0]);
}

#[test]
fn reverse_twice_is_identity() {
    let frames = table(&[10, 20, 30, 40, 50]);
    let (once, _) = process_frames(&frames, &opt_with(Mode::Reverse)).unwrap();
    let (twice, _) = process_frames(&once, &opt_with(Mode::Reverse)).unwrap();
    assert_eq!(offsets(&twice), offsets(&frames));
}

#[test]
fn invert_swaps_pairs() {
    let frames = table(&[10, 20, 30, 40, 50]);
    let (out, _) = process_frames(&frames, &opt_with(Mode::Invert)).unwrap();
    // pairs (0,1) and (2,3) swap; the odd trailing frame stays
    assert_eq!(offsets(&out), vec![10, 0, 60, 30, 100]);
}

#[test]
fn invert_twice_is_identity_even_length() {
    let frames = table(&[10, 20, 30, 40]);
    let (once, _) = process_frames(&frames, &opt_with(Mode::Invert)).unwrap();
    let (twice, _) = process_frames(&once, &opt_with(Mode::Invert)).unwrap();
    assert_eq!(offsets(&twice), offsets(&frames));
}

#[test]
fn bloom_replaces_one_frame_with_copies() {
    let frames = table(&[10, 20, 30, 40]);
    let mut opt = opt_with(Mode::Bloom);
    opt.countframes = 3;
    opt.positframes = 1;
    let (out, _) = process_frames(&frames, &opt).unwrap();
    // length: 4 + 3 - 1
    assert_eq!(out.len(), frames.len() + opt.countframes - 1);
    assert_eq!(offsets(&out), vec![0, 10, 10, 10, 30, 60]);
}

#[test]
fn bloom_position_out_of_range_is_invalid_configuration() {
    let frames = table(&[10, 20, 30, 40]);
    let mut opt = opt_with(Mode::Bloom);
    opt.countframes = 3;
    opt.positframes = 4;
    let err = process_frames(&frames, &opt).unwrap_err();
    assert_eq!(
        err,
        EngineError::InvalidConfiguration(ConfigFault::BloomPositionOutOfRange)
    );
}

#[test]
fn pulse_repeats_rhythm_slots() {
    let frames = table(&[10, 20, 30]);
    let mut opt = opt_with(Mode::Pulse);
    opt.countframes = 3;
    opt.positframes = 2;
    let (out, _) = process_frames(&frames, &opt).unwrap();
    // indices 0 and 2 are multiples of 2: emitted three times each
    assert_eq!(offsets(&out), vec![0, 0, 0, 10, 30, 30, 30]);
    // length: 3 + (3 - 1) * ceil(3 / 2)
    assert_eq!(out.len(), 3 + 2 * 2);
}

#[test]
fn pulse_zero_rhythm_is_invalid_configuration() {
    let frames = table(&[10, 20, 30]);
    let mut opt = opt_with(Mode::Pulse);
    opt.countframes = 2;
    opt.positframes = 0;
    let err = process_frames(&frames, &opt).unwrap_err();
    assert_eq!(err, EngineError::InvalidConfiguration(ConfigFault::ZeroRhythm));
}

#[test]
fn overlap_keeps_chunk_heads() {
    let frames = table(&[1, 1, 1, 1, 1, 1, 1, 1, 1, 1]);
    let mut opt = opt_with(Mode::Overlap);
    opt.countframes = 2;
    opt.positframes = 3;
    let (out, _) = process_frames(&frames, &opt).unwrap();
    // chunks [0-2], [3-5], [6-8], [9]: keep the first two of each
    assert_eq!(offsets(&out), vec![0, 1, 3, 4, 6, 7, 9]);
}

#[test]
fn overlap_zero_rhythm_is_invalid_configuration() {
    let frames = table(&[1, 1]);
    let mut opt = opt_with(Mode::Overlap);
    opt.positframes = 0;
    let err = process_frames(&frames, &opt).unwrap_err();
    assert_eq!(err, EngineError::InvalidConfiguration(ConfigFault::ZeroRhythm));
}

#[test]
fn random_is_a_permutation() {
    let frames = table(&[10, 20, 30, 40, 50, 60, 70]);
    let (out, _) = process_frames(&frames, &opt_with(Mode::Random)).unwrap();
    let mut got = offsets(&out);
    let mut want = offsets(&frames);
    got.sort();
    want.sort();
    assert_eq!(got, want);
}

#[test]
fn jiggle_keeps_length_and_membership() {
    let frames = table(&[10, 20, 30, 40, 50]);
    let mut opt = opt_with(Mode::Jiggle);
    opt.positframes = 2;
    let (out, _) = process_frames(&frames, &opt).unwrap();
    assert_eq!(out.len(), frames.len());
    let members = offsets(&frames);
    for f in &out {
        assert!(members.contains(&f.offset));
    }
}

#[test]
fn jiggle_zero_spread_repeats_first_frame() {
    // all draws from [-0, 0] wrap to index 0
    let frames = table(&[10, 20, 30]);
    let mut opt = opt_with(Mode::Jiggle);
    opt.positframes = 0;
    let (out, _) = process_frames(&frames, &opt).unwrap();
    assert_eq!(offsets(&out), vec![0, 0, 0]);
}

#[test]
fn jiggle_empty_input_is_empty() {
    let frames: Vec<Frame> = Vec::new();
    let mut opt = opt_with(Mode::Jiggle);
    opt.positframes = 5;
    let (out, _) = process_frames(&frames, &opt).unwrap();
    assert!(out.is_empty());
}

#[test]
fn multiply_repeats_each_frame_in_order() {
    let frames = table(&[10, 20]);
    let out = multiply_frames(&frames, 3);
    assert_eq!(out.len(), 3 * frames.len());
    assert_eq!(offsets(&out), vec![0, 0, 0, 10, 10, 10]);
}

#[test]
fn selector_scenario_keeps_first_four() {
    // raw sizes [50, 10, 10, 10, 50], kill 0.9 (threshold 45), kill_rel 1.0:
    // the seeded first frame is kept unconditionally, the last is rejected
    // because 50 > 10 * (1 + 1.0) = 20
    let frames = table(&[50, 10, 10, 10, 50]);
    let opt = Opt {
        kill_milli: 900,
        kill_rel_milli: Some(1000),
        firstframe: true,
        ..Opt::default()
    };
    let kept = select_frames(&frames, &opt);
    assert_eq!(offsets(&kept), offsets(&frames[0..4]));
}

#[test]
fn selector_disabled_thresholds_keep_everything() {
    let frames = table(&[50, 10, 10, 10, 50]);
    let opt = Opt {
        kill_milli: 1000,
        kill_rel_milli: None,
        firstframe: false,
        ..Opt::default()
    };
    let kept = select_frames(&frames, &opt);
    assert_eq!(offsets(&kept), offsets(&frames));
}

#[test]
fn selector_relative_threshold_drops_growth() {
    // kill disabled, kill_rel 0: a frame may never be larger than its
    // predecessor; the first frame fails against the zero rolling seed
    let frames = table(&[10, 10, 5, 20]);
    let opt = Opt {
        kill_milli: 1000,
        kill_rel_milli: Some(0),
        firstframe: false,
        ..Opt::default()
    };
    let kept = select_frames(&frames, &opt);
    assert_eq!(offsets(&kept), vec![10, 20]);
}

#[test]
fn run_step_chains_select_transform_multiply() {
    let frames = table(&[10, 20, 30]);
    let mut opt = opt_with(Mode::Reverse);
    opt.multiply = 2;
    let out = run_step(&frames, &opt).unwrap();
    assert_eq!(offsets(&out), vec![30, 30, 10, 10, 0, 0]);
}

#[test]
fn multiply_of_one_changes_nothing() {
    let frames = table(&[10, 20, 30]);
    let mut opt = opt_with(Mode::Void);
    opt.multiply = 1;
    let out = run_step(&frames, &opt).unwrap();
    assert_eq!(offsets(&out), offsets(&frames));
}

#[test]
fn pipeline_feeds_each_step_the_previous_output() {
    let frames = table(&[10, 20, 30]);
    let steps = vec![opt_with(Mode::Reverse), opt_with(Mode::Reverse)];
    let out = simulate_processing(frames.clone(), &steps).unwrap();
    assert_eq!(offsets(&out), offsets(&frames));
}

#[test]
fn pipeline_reports_a_failing_step() {
    let frames = table(&[10, 20, 30]);
    let mut bad = opt_with(Mode::Bloom);
    bad.positframes = 10;
    let steps = vec![opt_with(Mode::Void), bad];
    let err = simulate_processing(frames, &steps).unwrap_err();
    assert_eq!(
        err,
        EngineError::InvalidConfiguration(ConfigFault::BloomPositionOutOfRange)
    );
}

#[test]
fn mode_names_parse() {
    assert_eq!(Mode::from_name("void"), Some(Mode::Void));
    assert_eq!(Mode::from_name("random"), Some(Mode::Random));
    assert_eq!(Mode::from_name("reverse"), Some(Mode::Reverse));
    assert_eq!(Mode::from_name("invert"), Some(Mode::Invert));
    assert_eq!(Mode::from_name("bloom"), Some(Mode::Bloom));
    assert_eq!(Mode::from_name("pulse"), Some(Mode::Pulse));
    assert_eq!(Mode::from_name("jiggle"), Some(Mode::Jiggle));
    assert_eq!(Mode::from_name("overlap"), Some(Mode::Overlap));
    assert_eq!(Mode::from_name("exponential"), None);
    assert_eq!(Mode::from_name(""), None);
}

#[test]
fn default_options_match_the_command_line() {
    let opt = Opt::default();
    assert_eq!(opt.mode, Mode::Void);
    assert_eq!(opt.countframes, 1);
    assert_eq!(opt.positframes, 1);
    assert!(!opt.audio);
    assert!(!opt.firstframe);
    assert_eq!(opt.kill_milli, 700);
    assert_eq!(opt.kill_rel_milli, Some(150));
    assert_eq!(opt.multiply, 1);
    assert!(!opt.preview);
}

#[test]
fn audio_frames_survive_selection_and_transforms() {
    let mut frames = table(&[10, 10, 10]);
    frames[1].frame_type = FrameType::Audio;
    let (out, _) = process_frames(&frames, &opt_with(Mode::Reverse)).unwrap();
    assert_eq!(out[1].frame_type, FrameType::Audio);
}
