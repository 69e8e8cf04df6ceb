use wavglitch::materialize::{extract_channel, interleave, materialize_slice, silence_run};
use wavglitch::segment_layout::{Config, Segment, SegmentLayout, WavConfig};

/// A two-channel interleaved block of 8 samples per channel: channel 0 holds
/// 1, 2, 3, 11, 12, 13, 21, 22 and channel 1 their negatives.
fn sample_block() -> Vec<i32> {
    vec![
        1, -1, 2, -2, 3, -3, 11, -11, 12, -12, 13, -13, 21, -21, 22, -22,
    ]
}

/// The interleaved sub-block for a segment read: `segment_len` samples per
/// channel starting at the per-channel offset, short at the end of stream.
fn segment_block(block: &[i32], channel_count: usize, offset: u32, segment_len: usize) -> Vec<i32> {
    let duration = block.len() / channel_count;
    let start = offset as usize * channel_count;
    let end = (offset as usize + segment_len).min(duration) * channel_count;
    block[start..end].to_vec()
}

/// Materialize one slice from an interleaved block, mirroring how a driver
/// feeds the library: extract each non-silenced channel's raw run, then hand
/// the runs over.
fn read(block: &[i32], channel_count: usize, segments: Vec<Segment>, segment_len: usize) -> Vec<i32> {
    let duration = (block.len() / channel_count) as u32;
    let mut raws: Vec<Vec<i32>> = Vec::new();
    for (i, segment) in segments.iter().enumerate() {
        if segment.silence() {
            raws.push(Vec::new());
        } else {
            let sub = segment_block(block, channel_count, segment.offset(), segment_len);
            raws.push(extract_channel(&sub, channel_count, i));
        }
    }
    materialize_slice(&segments, segment_len, duration, &raws)
}

#[test]
fn wav_reader_red_segment() {
    let block = sample_block();
    let seg = |offset: u32, ch: usize| {
        extract_channel(&segment_block(&block, 2, offset, 3), 2, ch)
    };

    assert_eq!(seg(0, 0), [1, 2, 3]);
    assert_eq!(seg(3, 0), [11, 12, 13]);
    assert_eq!(seg(6, 0), [21, 22]);
    assert_eq!(seg(0, 1), [-1, -2, -3]);
    assert_eq!(seg(3, 1), [-11, -12, -13]);
    assert_eq!(seg(6, 1), [-21, -22]);
}

#[test]
fn wav_reader_read_1() {
    let block = sample_block();
    let plain = |offset: u32| vec![
        Segment::new(offset, false, false),
        Segment::new(offset, false, false),
    ];

    assert_eq!(read(&block, 2, plain(0), 3), [1, -1, 2, -2, 3, -3]);
    assert_eq!(read(&block, 2, plain(3), 3), [11, -11, 12, -12, 13, -13]);
    assert_eq!(read(&block, 2, plain(6), 3), [21, -21, 22, -22]);
}

#[test]
fn wav_reader_read_2() {
    let block = sample_block();
    let silent = |offset: u32| vec![
        Segment::new(offset, false, true),
        Segment::new(offset, false, true),
    ];

    assert_eq!(read(&block, 2, silent(0), 3), [0, 0, 0, 0, 0, 0]);
    assert_eq!(read(&block, 2, silent(3), 3), [0, 0, 0, 0, 0, 0]);
    assert_eq!(read(&block, 2, silent(6), 3), [0, 0, 0, 0]);
}

#[test]
fn wav_reader_read_3() {
    let block = sample_block();
    let reversing = |offset: u32| vec![
        Segment::new(offset, true, false),
        Segment::new(offset, true, false),
    ];

    assert_eq!(read(&block, 2, reversing(0), 3), [3, -3, 2, -2, 1, -1]);
    assert_eq!(read(&block, 2, reversing(3), 3), [13, -13, 12, -12, 11, -11]);
    assert_eq!(read(&block, 2, reversing(6), 3), [22, -22, 21, -21]);
}

#[test]
fn wav_reader_read_4() {
    let block = sample_block();

    assert_eq!(
        read(
            &block,
            2,
            vec![Segment::new(0, false, false), Segment::new(3, false, false)],
            3,
        ),
        [1, -11, 2, -12, 3, -13]
    );
    assert_eq!(
        read(
            &block,
            2,
            vec![Segment::new(3, false, false), Segment::new(0, false, false)],
            3,
        ),
        [11, -1, 12, -2, 13, -3]
    );
    assert_eq!(
        read(
            &block,
            2,
            vec![Segment::new(6, false, false), Segment::new(6, false, false)],
            3,
        ),
        [21, -21, 22, -22]
    );
}

#[test]
fn silence_run_truncates() {
    let run = silence_run(19800, 18000, 3600);
    assert_eq!(run.len(), 1800);
    assert!(run.iter().all(|&s| s == 0));

    let full = silence_run(19800, 14400, 3600);
    assert_eq!(full.len(), 3600);
}

#[test]
fn interleave_two_channels() {
    let channels = vec![vec![1, 2, 3], vec![-1, -2, -3]];
    assert_eq!(interleave(&channels), [1, -1, 2, -2, 3, -3]);
}

#[test]
fn extract_interleave_round_trip() {
    let block = sample_block();
    let channels = vec![
        extract_channel(&block, 2, 0),
        extract_channel(&block, 2, 1),
    ];
    assert_eq!(interleave(&channels), block);
}

#[test]
fn round_trip_identity() {
    // with every probability zero the whole pipeline reproduces the input
    let block = sample_block();
    let config = Config {
        segment_len: 3,
        prob_silence: 0,
        prob_swap: 0,
        prob_reverse: 0,
        prob_repeat: 0,
        max_swap: 1,
        max_repeat: 1,
        each_channel_separately: false,
    };
    let wav_config = WavConfig { duration: 8, sample_rate: 48000, channels: 2 };
    let mut layout = SegmentLayout::build(config, wav_config);
    let mut out: Vec<i32> = Vec::new();
    while let Some(mut slice) = layout.next() {
        let mut segments = Vec::new();
        while let Some(segment) = slice.next() {
            segments.push(segment);
        }
        out.extend(read(&block, 2, segments, slice.segment_len()));
    }

    assert_eq!(out, block);
}

#[test]
fn silent_layout_materializes_to_zero() {
    // with silencing certain, every output sample is zero and the final
    // slice is truncated to the remaining duration
    let block = sample_block();
    let segments = vec![Segment::new(6, false, true), Segment::new(6, true, true)];
    let out = read(&block, 2, segments, 3);
    assert_eq!(out, [0, 0, 0, 0]);
}

#[test]
fn reversed_layout_reverses_runs() {
    // with reversal certain, each channel's run is the reverse of the
    // untransformed read for the same offset and length
    let block = sample_block();
    let plain = read(
        &block,
        2,
        vec![Segment::new(3, false, false), Segment::new(3, false, false)],
        3,
    );
    let reversed = read(
        &block,
        2,
        vec![Segment::new(3, true, false), Segment::new(3, true, false)],
        3,
    );
    let mut expected_left: Vec<i32> = plain.iter().copied().step_by(2).collect();
    let mut expected_right: Vec<i32> = plain.iter().copied().skip(1).step_by(2).collect();
    expected_left.reverse();
    expected_right.reverse();
    assert_eq!(reversed, interleave(&vec![expected_left, expected_right]));
}
