use solflow::downsampler_for_test;
use solflow::resample::{Downsampler, Step};
use solflow::segmenter::{cut_frames, frame_samples, piece_ranges, MAX_SEGMENT_FRAMES};
use solflow::wav::{data_offset, header, readable, sample_count, SAMPLE_RATE};

/// A converter with the samples it keeps, fed the way the recorder feeds it.
struct Stream {
    down: Downsampler,
    buf: Vec<f32>,
}

impl Stream {
    fn new(src: usize, dst: usize) -> Self {
        Stream { down: Downsampler::new(src, dst), buf: Vec::new() }
    }

    fn feed(&mut self, input: &[f32], out: &mut Vec<f32>) {
        assert!(self.down.has_room(input.len()));
        let plan = self.down.feed(input.len());
        if plan.copy {
            out.extend_from_slice(input);
            return;
        }
        self.buf.extend_from_slice(input);
        for step in &plan.steps {
            match *step {
                Step::Mean { from, to } => {
                    let sum: f32 = self.buf[from..to].iter().sum();
                    out.push(sum / (to - from).max(1) as f32);
                }
                Step::Blend { at, num, den } => {
                    let frac = num as f32 / den as f32;
                    out.push(self.buf[at] * (1.0 - frac) + self.buf[at + 1] * frac);
                }
            }
        }
        self.buf.drain(..plan.drain);
    }
}

fn tone(src: usize, seconds: usize) -> Vec<f32> {
    (0..src * seconds)
        .map(|i| (i as f32 * 440.0 * std::f32::consts::TAU / src as f32).sin())
        .collect()
}

#[test]
fn chunked_matches_single_feed() {
    let src = 44_100usize;
    let input = tone(src, 3);

    let mut whole = Vec::new();
    Stream::new(src, SAMPLE_RATE).feed(&input, &mut whole);

    for size in [1, 7, 1024, 4096] {
        let mut streamed = Vec::new();
        let mut down = Stream::new(src, SAMPLE_RATE);
        for chunk in input.chunks(size) {
            down.feed(chunk, &mut streamed);
        }
        assert_eq!(streamed.len(), whole.len(), "pieces of {size}: lengths differ");
        for i in 0..whole.len() {
            assert!((streamed[i] - whole[i]).abs() < 1e-6, "pieces of {size}: sample {i} differs");
        }
    }
}

#[test]
fn upsampling_survives_chunks() {
    let src = 8_000usize;
    let input = tone(src, 2);

    let mut whole = Vec::new();
    Stream::new(src, SAMPLE_RATE).feed(&input, &mut whole);

    let mut streamed = Vec::new();
    let mut down = Stream::new(src, SAMPLE_RATE);
    for chunk in input.chunks(333) {
        down.feed(chunk, &mut streamed);
    }
    assert_eq!(streamed.len(), whole.len());
    for i in 0..whole.len() {
        assert!((streamed[i] - whole[i]).abs() < 1e-6, "sample {i} differs");
    }
    // Going up, there are more output samples than input ones.
    assert!(streamed.len() > input.len());
}

#[test]
fn down_windows_are_exact_fractions() {
    let mut d = downsampler_for_test(3, 1);
    let plan = d.feed(7);
    assert!(!plan.copy);
    assert_eq!(plan.steps, vec![Step::Mean { from: 0, to: 3 }, Step::Mean { from: 3, to: 6 }]);
    assert_eq!(plan.drain, 6);
    let plan = d.feed(2);
    assert_eq!(plan.steps, vec![Step::Mean { from: 0, to: 3 }]);
    assert_eq!(plan.drain, 3);
}

#[test]
fn up_windows_blend_neighbours() {
    let mut d = Downsampler::new(1, 2);
    let plan = d.feed(3);
    assert_eq!(
        plan.steps,
        vec![
            Step::Blend { at: 0, num: 0, den: 2 },
            Step::Blend { at: 0, num: 1, den: 2 },
            Step::Blend { at: 1, num: 0, den: 2 },
            Step::Blend { at: 1, num: 1, den: 2 },
        ]
    );
    assert_eq!(plan.drain, 2);
}

#[test]
fn equal_rates_copy() {
    let mut d = Downsampler::new(16_000, 16_000);
    let plan = d.feed(100);
    assert!(plan.copy);
    assert!(plan.steps.is_empty());
    assert_eq!(plan.drain, 0);
}

#[test]
fn zero_rate_has_no_room() {
    let d = Downsampler::new(0, 16_000);
    assert!(!d.has_room(1));
    assert!(Downsampler::new(48_000, 16_000).has_room(1 << 20));
}

#[test]
fn frames_are_twenty_milliseconds() {
    assert_eq!(frame_samples(16_000), 320);
    assert_eq!(frame_samples(44_100), 882);
}

#[test]
fn long_speech_is_cut_at_its_quietest_frame() {
    let n = 1300;
    let speech = vec![true; n];
    let mut order: Vec<i32> = (0..n as i32).map(|i| 1000 + i).collect();
    order[500] = 5;
    order[700] = 5;
    let cuts = cut_frames(&speech, &order);
    assert_eq!(cuts, vec![500]);
}

#[test]
fn pause_is_cut_in_its_middle() {
    let mut speech = vec![true; 400];
    for f in 300..320 {
        speech[f] = false;
    }
    let order = vec![0i32; 400];
    assert_eq!(cut_frames(&speech, &order), vec![308]);
}

#[test]
fn short_pause_early_is_not_cut() {
    let mut speech = vec![true; 400];
    for f in 100..130 {
        speech[f] = false;
    }
    let order = vec![0i32; 400];
    assert_eq!(cut_frames(&speech, &order), Vec::<usize>::new());
}

#[test]
fn no_piece_is_longer_than_the_limit() {
    let n = 5000;
    let speech = vec![true; n];
    let order: Vec<i32> = (0..n as i32).map(|i| (i * 7919) % 1013).collect();
    let cuts = cut_frames(&speech, &order);
    let mut prev = 0;
    for &c in cuts.iter().chain(std::iter::once(&n)) {
        assert!(c > prev && c - prev <= MAX_SEGMENT_FRAMES);
        prev = c;
    }
}

#[test]
fn ranges_skip_tiny_pieces() {
    let r = piece_ranges(&[10, 12], 100, 320, 100 * 320);
    assert_eq!(r, vec![(0, 3200), (3840, 32000)]);
    let r = piece_ranges(&[], 10, 320, 1500);
    assert!(r.is_empty());
    let r = piece_ranges(&[], 10, 320, 3000);
    assert_eq!(r, vec![(0, 3000)]);
}

#[test]
fn wav_header_fields() {
    let h = header(32_000);
    assert_eq!(h.len(), 44);
    assert_eq!(&h[0..4], b"RIFF");
    assert_eq!(u32::from_le_bytes([h[4], h[5], h[6], h[7]]), 32_036);
    assert_eq!(&h[8..16], b"WAVEfmt ");
    assert_eq!(u32::from_le_bytes([h[24], h[25], h[26], h[27]]), 16_000);
    assert_eq!(u32::from_le_bytes([h[28], h[29], h[30], h[31]]), 32_000);
    assert_eq!(&h[36..40], b"data");
    assert_eq!(u32::from_le_bytes([h[40], h[41], h[42], h[43]]), 32_000);
}

#[test]
fn wav_data_found_past_extra_chunks() {
    let mut head = header(10).to_vec();
    assert_eq!(data_offset(&head), 44);
    // A filler chunk of 6 bytes before the data chunk.
    let mut other = b"RIFF\0\0\0\0WAVE".to_vec();
    other.extend_from_slice(b"FLLR");
    other.extend_from_slice(&6u32.to_le_bytes());
    other.extend_from_slice(&[0; 6]);
    other.extend_from_slice(b"data");
    other.extend_from_slice(&0u32.to_le_bytes());
    assert_eq!(data_offset(&other), 12 + 8 + 6 + 8);
    head.truncate(10);
    assert_eq!(data_offset(&head), 44);
    // A chunk size pointing past the bytes read.
    let mut bad = b"RIFF\0\0\0\0WAVE".to_vec();
    bad.extend_from_slice(b"JUNK");
    bad.extend_from_slice(&u32::MAX.to_le_bytes());
    assert_eq!(data_offset(&bad), 44);
}

#[test]
fn wav_lengths() {
    assert_eq!(sample_count(44 + 3200, 44), 1600);
    assert_eq!(sample_count(20, 44), 0);
    assert_eq!(readable(100, 90, 50), 10);
    assert_eq!(readable(100, 10, 50), 50);
    assert_eq!(readable(100, 200, 50), 0);
}
