//! Container-level behaviour on synthetic byte streams: splitting, indexing,
//! assembly and the byte-exact round trip.

use tomatwo::assembler::assemble_output;
use tomatwo::frame::{max_size_of, Frame, FrameType};
use tomatwo::indexer::{build_frame_table, extract_frame_data};
use tomatwo::opt::{EngineError, Mode, Opt};
use tomatwo::pipeline::process_container;
use tomatwo::splitter::{bstream_until_marker, find_marker, split_container};
use tomatwo::state::ProcessState;

/// A synthetic container: `header` bytes, the "movi" marker, video chunks,
/// the "idx1" marker, and `index` bytes.
fn container(header: &[u8], payloads: &[&[u8]], index: &[u8]) -> Vec<u8> {
    let mut data = Vec::new();
    data.extend_from_slice(header);
    data.extend_from_slice(b"movi");
    for payload in payloads {
        data.extend_from_slice(b"00dc");
        data.extend_from_slice(payload);
    }
    data.extend_from_slice(b"idx1");
    data.extend_from_slice(index);
    data
}

#[test]
fn find_marker_finds_the_first_occurrence() {
    let data = b"xxmovixxmovi";
    assert_eq!(find_marker(data, b"movi", 0), Some(2));
    assert_eq!(find_marker(data, b"movi", 3), Some(8));
    assert_eq!(find_marker(data, b"idx1", 0), None);
}

#[test]
fn bstream_copies_up_to_the_marker() {
    let data = b"headmovirest";
    let (seg, pos) = bstream_until_marker(data, Some(b"movi"), 0);
    assert_eq!(seg, b"head");
    assert_eq!(pos, 4);
    let (rest, end) = bstream_until_marker(data, None, pos);
    assert_eq!(rest, b"movirest");
    assert_eq!(end, data.len());
}

#[test]
fn bstream_without_marker_copies_the_remainder() {
    let data = b"no markers here";
    let (seg, pos) = bstream_until_marker(data, Some(b"movi"), 0);
    assert_eq!(seg, data);
    assert_eq!(pos, data.len());
}

#[test]
fn split_container_partitions_at_the_markers() {
    let data = container(b"HEADER", &[b"aaaa", b"bb"], b"INDEX");
    let segs = split_container(&data);
    assert!(segs.movi_found);
    assert!(segs.idx1_found);
    assert_eq!(segs.header, b"HEADER");
    assert_eq!(&segs.movi[0..4], b"movi");
    assert_eq!(&segs.index[0..4], b"idx1");
    let mut rejoined = segs.header.clone();
    rejoined.extend_from_slice(&segs.movi);
    rejoined.extend_from_slice(&segs.index);
    assert_eq!(rejoined, data);
}

#[test]
fn split_container_degrades_without_markers() {
    let data = b"just some bytes".to_vec();
    let segs = split_container(&data);
    assert!(!segs.movi_found);
    assert!(!segs.idx1_found);
    assert_eq!(segs.header, data);
    assert!(segs.movi.is_empty());
    assert!(segs.index.is_empty());
}

#[test]
fn indexer_scenario_two_tags() {
    // a 200-byte segment with video-chunk tags at offsets 100 and 140 yields
    // frames {offset 100, size 40} and {offset 140, size 60}
    let mut seg = vec![0u8; 200];
    seg[100..104].copy_from_slice(b"00dc");
    seg[140..144].copy_from_slice(b"00dc");
    let frames = build_frame_table(&seg, false);
    assert_eq!(frames.len(), 2);
    assert_eq!(frames[0].offset, 100);
    assert_eq!(frames[0].size, 40);
    assert_eq!(frames[0].prev_size, 0);
    assert_eq!(frames[1].offset, 140);
    assert_eq!(frames[1].size, 60);
    assert_eq!(frames[1].prev_size, 40);
}

#[test]
fn indexer_audio_tags_only_when_enabled() {
    let mut seg = vec![0u8; 64];
    seg[8..12].copy_from_slice(b"00dc");
    seg[20..24].copy_from_slice(b"01wb");
    let video_only = build_frame_table(&seg, false);
    assert_eq!(video_only.len(), 1);
    assert_eq!(video_only[0].frame_type, FrameType::Video);
    let with_audio = build_frame_table(&seg, true);
    assert_eq!(with_audio.len(), 2);
    assert_eq!(with_audio[1].frame_type, FrameType::Audio);
    assert_eq!(with_audio[0].size, 12);
}

#[test]
fn max_size_is_the_largest_frame() {
    let frames = vec![
        Frame { offset: 0, size: 7, prev_size: 0, frame_type: FrameType::Video },
        Frame { offset: 7, size: 19, prev_size: 7, frame_type: FrameType::Video },
        Frame { offset: 26, size: 4, prev_size: 19, frame_type: FrameType::Video },
    ];
    assert_eq!(max_size_of(&frames), 19);
    assert_eq!(max_size_of(&[]), 0);
}

#[test]
fn assembler_writes_selected_ranges() {
    let movi = b"movi00dcAB00dcCD";
    let frames = vec![
        Frame { offset: 10, size: 6, prev_size: 0, frame_type: FrameType::Video },
        Frame { offset: 4, size: 6, prev_size: 6, frame_type: FrameType::Video },
    ];
    let out = assemble_output(b"HDR", movi, b"IDX", &frames);
    assert_eq!(out, b"HDRmovi00dcCD00dcABIDX");
}

#[test]
fn round_trip_reproduces_the_container() {
    // the full unfiltered raw table, mode void, multiply 1, no seeding:
    // the assembled output is the original input byte for byte
    let data = container(b"RIFFxxxxAVI LIST", &[b"frame one", b"x", b"frame three"], b"tail");
    let opt = Opt {
        mode: Mode::Void,
        kill_milli: 1000,
        kill_rel_milli: None,
        firstframe: false,
        multiply: 1,
        ..Opt::default()
    };
    let out = process_container(&data, &opt).unwrap();
    assert_eq!(out, data);
}

#[test]
fn process_container_reverse_moves_chunk_bytes() {
    let data = container(b"H", &[b"AA", b"BB"], b"I");
    let opt = Opt {
        mode: Mode::Reverse,
        kill_milli: 1000,
        kill_rel_milli: None,
        ..Opt::default()
    };
    let out = process_container(&data, &opt).unwrap();
    assert_eq!(out, container(b"H", &[b"BB", b"AA"], b"I"));
}

#[test]
fn degraded_input_without_markers_still_assembles() {
    // no "movi" marker: the whole input becomes the header segment, and the
    // assembler appends its literal marker to an empty frame stream
    let data = b"no markers".to_vec();
    let opt = Opt {
        mode: Mode::Void,
        kill_milli: 1000,
        kill_rel_milli: None,
        ..Opt::default()
    };
    let out = process_container(&data, &opt).unwrap();
    let mut want = data.clone();
    want.extend_from_slice(b"movi");
    assert_eq!(out, want);
}

#[test]
fn degraded_input_without_index_round_trips() {
    // "movi" found but no "idx1": the frame-data segment runs to the end of
    // the stream and the index segment is empty
    let mut data = b"xxmovi".to_vec();
    data.extend_from_slice(b"00dcAB");
    let opt = Opt {
        mode: Mode::Void,
        kill_milli: 1000,
        kill_rel_milli: None,
        ..Opt::default()
    };
    let out = process_container(&data, &opt).unwrap();
    assert_eq!(out, data);
}

#[test]
fn process_container_rejects_bad_bloom() {
    let data = container(b"H", &[b"AA", b"BB"], b"I");
    let opt = Opt {
        mode: Mode::Bloom,
        positframes: 9,
        kill_milli: 1000,
        kill_rel_milli: None,
        ..Opt::default()
    };
    let err = process_container(&data, &opt).unwrap_err();
    assert!(matches!(err, EngineError::InvalidConfiguration(_)));
}

#[test]
fn extract_locates_absolute_offsets() {
    let data = container(b"HEADER", &[b"aaaa", b"bb"], b"INDEX");
    // movi marker at 6; chunks at 10 (size 8) and 18 (until idx1 at 24)
    let (frames, max) = extract_frame_data(&data).unwrap();
    assert_eq!(frames.len(), 2);
    assert_eq!(frames[0].offset, 10);
    assert_eq!(frames[0].size, 8);
    assert_eq!(frames[1].offset, 18);
    assert_eq!(frames[1].size, 6);
    assert_eq!(max, 8);
}

#[test]
fn extract_needs_both_markers() {
    let err = extract_frame_data(b"no markers at all").unwrap_err();
    assert_eq!(err, EngineError::MarkerNotFound);
    let err = extract_frame_data(b"idx1 before movi").unwrap_err();
    assert_eq!(err, EngineError::MarkerNotFound);
}

#[test]
fn process_state_gates_new_runs() {
    assert!(ProcessState::Idle.ready_for_input());
    assert!(!ProcessState::Converting.ready_for_input());
    assert!(!ProcessState::Datamoshing.ready_for_input());
    assert!(ProcessState::Done(std::path::PathBuf::from("out.avi")).ready_for_input());
    assert!(ProcessState::Error.ready_for_input());
}
