use wavglitch::rng::PROB_ONE;
use wavglitch::segment_layout::{Config, Segment, SegmentLayout, SegmentSlice, WavConfig};

/// The nominal segment length in samples for a tempo in beats per minute and
/// a relative note value.
fn nominal_len(sample_rate: u32, tempo: f64, note_value: f64) -> u32 {
    (sample_rate as f64 * 240. * note_value / tempo) as u32
}

fn config_with(
    prob_silence: u32,
    prob_swap: u32,
    prob_reverse: u32,
    prob_repeat: u32,
    max_swap: u16,
    max_repeat: u16,
    each_channel_separately: bool,
) -> Config {
    Config {
        segment_len: nominal_len(48000, 200., 0.0625),
        prob_silence,
        prob_swap,
        prob_reverse,
        prob_repeat,
        max_swap,
        max_repeat,
        each_channel_separately,
    }
}

#[test]
fn slice_next() {
    let mut slice = SegmentSlice::new(
        vec![Segment::new(0, false, false), Segment::new(16, true, true)],
        1,
        0,
    );
    assert_eq!(slice.next(), Some(Segment::new(0, false, false)));
    assert_eq!(slice.next(), Some(Segment::new(16, true, true)));
    assert_eq!(slice.next(), None);
}

#[test]
fn layout_next() {
    let mut layout = SegmentLayout {
        segments: vec![
            vec![Segment::new(0, false, false), Segment::new(16, true, true)],
            vec![Segment::new(0, true, true), Segment::new(16, false, false)],
        ],
        index: 0,
        segment_len: 1,
    };

    let mut slices = vec![];
    slices.push(layout.next().unwrap());
    slices.push(layout.next().unwrap());

    assert!(layout.next().is_none());
    assert_eq!(slices[0].next(), Some(Segment::new(0, false, false)));
    assert_eq!(slices[0].next(), Some(Segment::new(0, true, true)));
    assert_eq!(slices[0].next(), None);
    assert_eq!(slices[1].next(), Some(Segment::new(16, true, true)));
    assert_eq!(slices[1].next(), Some(Segment::new(16, false, false)));
    assert_eq!(slices[1].next(), None);
}

#[test]
fn segment_count_complete() {
    assert_eq!(SegmentLayout::segment_count(4000, 1000), (4, false));
}

#[test]
fn segment_count_incomplete() {
    assert_eq!(SegmentLayout::segment_count(4001, 1000), (5, true));
}

#[test]
fn channel_build_nothing() {
    let config = config_with(0, 0, 0, 0, 1, 1, true);
    let mut channel = SegmentLayout::build_channel(&config, 19800).into_iter();

    assert_eq!(channel.next(), Some(Segment::new(0, false, false)));
    assert_eq!(channel.next(), Some(Segment::new(3600, false, false)));
    assert_eq!(channel.next(), Some(Segment::new(7200, false, false)));
    assert_eq!(channel.next(), Some(Segment::new(10800, false, false)));
    assert_eq!(channel.next(), Some(Segment::new(14400, false, false)));
    assert_eq!(channel.next(), Some(Segment::new(18000, false, false)));
    assert_eq!(channel.next(), None);
}

#[test]
fn channel_build_silence() {
    let config = config_with(PROB_ONE, 0, 0, 0, 1, 1, true);
    let mut channel = SegmentLayout::build_channel(&config, 19800).into_iter();

    assert_eq!(channel.next(), Some(Segment::new(0, false, true)));
    assert_eq!(channel.next(), Some(Segment::new(3600, false, true)));
    assert_eq!(channel.next(), Some(Segment::new(7200, false, true)));
    assert_eq!(channel.next(), Some(Segment::new(10800, false, true)));
    assert_eq!(channel.next(), Some(Segment::new(14400, false, true)));
    assert_eq!(channel.next(), Some(Segment::new(18000, false, true)));
    assert_eq!(channel.next(), None);
}

#[test]
fn channel_build_swap() {
    let config = config_with(0, PROB_ONE, 0, 0, 1, 1, true);
    let mut channel = SegmentLayout::build_channel(&config, 19800).into_iter();

    assert_eq!(channel.next(), Some(Segment::new(3600, false, false)));
    assert_eq!(channel.next(), Some(Segment::new(7200, false, false)));
    assert_eq!(channel.next(), Some(Segment::new(10800, false, false)));
    assert_eq!(channel.next(), Some(Segment::new(14400, false, false)));
    assert_eq!(channel.next(), Some(Segment::new(0, false, false)));
    assert_eq!(channel.next(), Some(Segment::new(18000, false, false)));
    assert_eq!(channel.next(), None);
}

#[test]
fn channel_build_reverse() {
    let config = config_with(0, 0, PROB_ONE, 0, 1, 1, true);
    let mut channel = SegmentLayout::build_channel(&config, 19800).into_iter();

    assert_eq!(channel.next(), Some(Segment::new(0, true, false)));
    assert_eq!(channel.next(), Some(Segment::new(3600, true, false)));
    assert_eq!(channel.next(), Some(Segment::new(7200, true, false)));
    assert_eq!(channel.next(), Some(Segment::new(10800, true, false)));
    assert_eq!(channel.next(), Some(Segment::new(14400, true, false)));
    assert_eq!(channel.next(), Some(Segment::new(18000, true, false)));
    assert_eq!(channel.next(), None);
}

#[test]
fn channel_build_repeat() {
    let config = config_with(0, 0, 0, PROB_ONE, 1, 1, true);
    let mut channel = SegmentLayout::build_channel(&config, 19800).into_iter();

    assert_eq!(channel.next(), Some(Segment::new(0, false, false)));
    assert_eq!(channel.next(), Some(Segment::new(0, false, false)));
    assert_eq!(channel.next(), Some(Segment::new(7200, false, false)));
    assert_eq!(channel.next(), Some(Segment::new(7200, false, false)));
    assert_eq!(channel.next(), Some(Segment::new(14400, false, false)));
    assert_eq!(channel.next(), Some(Segment::new(18000, false, false)));
    assert_eq!(channel.next(), None);
}

#[test]
fn channel_build_swap_repeat() {
    let config = config_with(0, PROB_ONE, 0, PROB_ONE, 1, 1, true);
    let mut channel = SegmentLayout::build_channel(&config, 19800).into_iter();

    assert_eq!(channel.next(), Some(Segment::new(3600, false, false)));
    assert_eq!(channel.next(), Some(Segment::new(3600, false, false)));
    assert_eq!(channel.next(), Some(Segment::new(10800, false, false)));
    assert_eq!(channel.next(), Some(Segment::new(10800, false, false)));
    assert_eq!(channel.next(), Some(Segment::new(0, false, false)));
    assert_eq!(channel.next(), Some(Segment::new(18000, false, false)));
    assert_eq!(channel.next(), None);
}

fn collect_channels(mut layout: SegmentLayout, channels: usize) -> Vec<Vec<Segment>> {
    let mut out: Vec<Vec<Segment>> = vec![vec![]; channels];
    while let Some(mut slice) = layout.next() {
        let mut i = 0;
        while let Some(segment) = slice.next() {
            out[i].push(segment);
            i += 1;
        }
    }
    out
}

#[test]
fn layout_build_same() {
    let config = config_with(0, 0, 0, 0, 1, 1, true);
    let wav_config = WavConfig { duration: 19800, sample_rate: 48000, channels: 2 };
    let layout = SegmentLayout::build(config, wav_config);
    let channels = collect_channels(layout, 2);

    assert_eq!(channels[0], channels[1]);
}

#[test]
fn layout_build_different() {
    let config = config_with(
        PROB_ONE / 2,
        PROB_ONE / 2,
        PROB_ONE / 2,
        PROB_ONE / 2,
        5,
        5,
        true,
    );
    let wav_config = WavConfig { duration: 19800, sample_rate: 48000, channels: 2 };
    let layout = SegmentLayout::build(config, wav_config);
    let channels = collect_channels(layout, 2);

    assert_ne!(channels[0], channels[1]);
}

#[test]
fn layout_build_shared() {
    // channels not processed separately stay identical even with every
    // effect probability strictly between the extremes
    let config = config_with(
        PROB_ONE / 2,
        PROB_ONE / 2,
        PROB_ONE / 2,
        PROB_ONE / 2,
        5,
        5,
        false,
    );
    let wav_config = WavConfig { duration: 19800, sample_rate: 48000, channels: 3 };
    let layout = SegmentLayout::build(config, wav_config);
    let channels = collect_channels(layout, 3);

    assert_eq!(channels[0], channels[1]);
    assert_eq!(channels[1], channels[2]);
}

#[test]
fn nominal_segment_length_example() {
    // 48000 Hz at tempo 200 with a 1/16 note gives 3600-sample segments;
    // 19800 samples make 6 segments, the last one incomplete
    let segment_len = nominal_len(48000, 200., 1. / 16.);
    assert_eq!(segment_len, 3600);
    assert_eq!(SegmentLayout::segment_count(19800, segment_len), (6, true));
}

#[test]
fn partial_segment_stays_last() {
    // whatever the draws, swap and repeat never move the trailing partial
    // segment out of the final slot
    let config = config_with(0, PROB_ONE, 0, PROB_ONE, 8, 8, true);
    let channel = SegmentLayout::build_channel(&config, 19800);

    assert_eq!(channel.len(), 6);
    assert_eq!(channel[5].offset(), 18000);
    for segment in channel.iter().take(5) {
        assert!(segment.offset() < 18000);
        assert_eq!(segment.offset() % 3600, 0);
    }
}

#[test]
fn channel_build_repeat_complete() {
    // a complete layout has no protected final slot, so the pairs cover it
    let mut config = config_with(0, 0, 0, PROB_ONE, 1, 1, true);
    config.segment_len = 3600;
    let mut channel = SegmentLayout::build_channel(&config, 14400).into_iter();

    assert_eq!(channel.next(), Some(Segment::new(0, false, false)));
    assert_eq!(channel.next(), Some(Segment::new(0, false, false)));
    assert_eq!(channel.next(), Some(Segment::new(7200, false, false)));
    assert_eq!(channel.next(), Some(Segment::new(7200, false, false)));
    assert_eq!(channel.next(), None);
}

#[test]
fn channel_build_single_segment() {
    // a duration shorter than the segment length gives one partial segment
    // that swap and repeat cannot move
    let mut config = config_with(0, PROB_ONE, 0, PROB_ONE, 8, 8, true);
    config.segment_len = 3600;
    let mut channel = SegmentLayout::build_channel(&config, 1800).into_iter();

    assert_eq!(channel.next(), Some(Segment::new(0, false, false)));
    assert_eq!(channel.next(), None);
}

#[test]
fn percentage_progress() {
    let mut layout = SegmentLayout {
        segments: vec![vec![
            Segment::new(0, false, false),
            Segment::new(4, false, false),
            Segment::new(8, false, false),
        ]],
        index: 0,
        segment_len: 4,
    };

    assert_eq!(layout.next().unwrap().percentage(), 3333);
    assert_eq!(layout.next().unwrap().percentage(), 6666);
    assert_eq!(layout.next().unwrap().percentage(), 10000);
    assert!(layout.next().is_none());
}

#[test]
fn slice_accessors() {
    let slice = SegmentSlice::new(vec![Segment::new(0, false, true)], 7, 2500);
    assert_eq!(slice.segment_len(), 7);
    assert_eq!(slice.percentage(), 2500);
}

#[test]
fn segment_accessors() {
    let segment = Segment::new(42, true, false);
    assert_eq!(segment.offset(), 42);
    assert!(segment.reverse());
    assert!(!segment.silence());
}
