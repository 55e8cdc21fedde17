use meltwater::{
    deinterleave, interleave, total_latency, FrameRoundTrip, FrameStream, RoundTripError,
    BUFFER_SIZE, FRAME_SIZE, INTERLEAVED_FRAME_SIZE, MAX_INPUT_BLOCK_SIZE,
};

/// Hands every frame back unchanged and counts the frames it saw.
struct PassThrough {
    frames: usize,
}

impl FrameRoundTrip for PassThrough {
    fn round_trip(&mut self, frame: &mut Vec<u32>) -> Option<usize> {
        self.frames += 1;
        Some(frame.len() / 2)
    }
}

/// Scales every sample by one half, as a lossy codec might.
struct Halve;

impl FrameRoundTrip for Halve {
    fn round_trip(&mut self, frame: &mut Vec<u32>) -> Option<usize> {
        for s in frame.iter_mut() {
            *s = (f32::from_bits(*s) * 0.5).to_bits();
        }
        Some(frame.len() / 2)
    }
}

struct Failing;

impl FrameRoundTrip for Failing {
    fn round_trip(&mut self, _frame: &mut Vec<u32>) -> Option<usize> {
        None
    }
}

struct ShortFrames;

impl FrameRoundTrip for ShortFrames {
    fn round_trip(&mut self, frame: &mut Vec<u32>) -> Option<usize> {
        Some(frame.len() / 4)
    }
}

struct Truncating;

impl FrameRoundTrip for Truncating {
    fn round_trip(&mut self, frame: &mut Vec<u32>) -> Option<usize> {
        frame.truncate(10);
        Some(FRAME_SIZE)
    }
}

fn bits(v: &[f32]) -> Vec<u32> {
    v.iter().map(|x| x.to_bits()).collect()
}

fn ramp(start: usize, n: usize) -> Vec<u32> {
    (start..start + n).map(|i| (i as f32).to_bits()).collect()
}

#[test]
fn interleave_alternates_left_and_right() {
    let left = bits(&[1.0, 2.0, 3.0]);
    let right = bits(&[-1.0, -2.0, -3.0]);
    let mut out = vec![0u32; 6];
    interleave(&left, &right, &mut out);
    assert_eq!(out, bits(&[1.0, -1.0, 2.0, -2.0, 3.0, -3.0]));
}

#[test]
fn deinterleave_splits_even_and_odd() {
    let input = bits(&[0.5, 0.25, -0.5, -0.25]);
    let mut left = vec![0u32; 2];
    let mut right = vec![0u32; 2];
    deinterleave(&input, &mut left, &mut right);
    assert_eq!(left, bits(&[0.5, -0.5]));
    assert_eq!(right, bits(&[0.25, -0.25]));
}

#[test]
fn interleave_round_trip_returns_channels() {
    let left = ramp(0, 37);
    let right = ramp(100, 37);
    let mut mixed = vec![0u32; 74];
    interleave(&left, &right, &mut mixed);
    let mut l2 = vec![7u32; 37];
    let mut r2 = vec![7u32; 37];
    deinterleave(&mixed, &mut l2, &mut r2);
    assert_eq!(l2, left);
    assert_eq!(r2, right);
}

#[test]
fn interleave_empty() {
    let mut out: Vec<u32> = Vec::new();
    interleave(&[], &[], &mut out);
    assert!(out.is_empty());
}

#[test]
fn new_stream_holds_one_frame_of_silence() {
    let s = FrameStream::new();
    assert_eq!(s.input_len(), 0);
    assert_eq!(s.output_len(), FRAME_SIZE);
    assert_eq!(BUFFER_SIZE, FRAME_SIZE + MAX_INPUT_BLOCK_SIZE);
}

#[test]
fn silent_block_of_largest_size_gives_silence() {
    let mut s = FrameStream::new();
    let mut codec = PassThrough { frames: 0 };
    let zeros = vec![0.0f32.to_bits(); 256];
    let mut lo = vec![1u32; 256];
    let mut ro = vec![1u32; 256];
    assert_eq!(s.process_samples(&mut codec, &zeros, &zeros, &mut lo, &mut ro), Ok(()));
    assert!(lo.iter().all(|x| f32::from_bits(*x) == 0.0));
    assert!(ro.iter().all(|x| f32::from_bits(*x) == 0.0));
    assert_eq!(codec.frames, 2);
}

#[test]
fn pass_through_delays_by_one_frame() {
    let mut s = FrameStream::new();
    let mut codec = PassThrough { frames: 0 };
    let sizes = [1usize, 7, 120, 256, 119, 121, 0, 64, 250, 33, 256, 256, 5];
    let mut sent_left: Vec<u32> = Vec::new();
    let mut got_left: Vec<u32> = Vec::new();
    let mut got_right: Vec<u32> = Vec::new();
    let mut next = 1usize;
    for &n in sizes.iter() {
        let l = ramp(next, n);
        let r = ramp(next + 100000, n);
        next += n;
        sent_left.extend_from_slice(&l);
        let mut lo = vec![0u32; n];
        let mut ro = vec![0u32; n];
        assert_eq!(s.process_samples(&mut codec, &l, &r, &mut lo, &mut ro), Ok(()));
        got_left.extend_from_slice(&lo);
        got_right.extend_from_slice(&ro);
        assert_eq!(s.input_len() + s.output_len(), FRAME_SIZE);
        assert!(s.input_len() < FRAME_SIZE);
    }
    let total = sent_left.len();
    let mut expected = vec![0u32; FRAME_SIZE];
    expected.extend_from_slice(&sent_left);
    expected.truncate(total);
    assert_eq!(got_left, expected);
    let expected_right: Vec<u32> = (0..total)
        .map(|i| if i < FRAME_SIZE { 0 } else { ((i - FRAME_SIZE + 1 + 100000) as f32).to_bits() })
        .collect();
    assert_eq!(got_right, expected_right);
}

#[test]
fn frames_follow_floor_of_carry_plus_block() {
    let mut s = FrameStream::new();
    let mut codec = PassThrough { frames: 0 };
    let block = ramp(0, 100);
    let mut out = vec![0u32; 100];
    let mut out_r = vec![0u32; 100];
    s.process_samples(&mut codec, &block, &block, &mut out, &mut out_r).unwrap();
    assert_eq!(codec.frames, 0);
    assert_eq!(s.input_len(), 100);
    let block = ramp(0, 250);
    let mut out = vec![0u32; 250];
    let mut out_r = vec![0u32; 250];
    s.process_samples(&mut codec, &block, &block, &mut out, &mut out_r).unwrap();
    // (100 + 250) / 120 = 2 frames, 110 carried over
    assert_eq!(codec.frames, 2);
    assert_eq!(s.input_len(), 110);
    assert_eq!(s.output_len(), 10);
}

#[test]
fn process_frames_drains_several_frames() {
    let mut s = FrameStream::new();
    let l = ramp(0, 250);
    s.load_input(&l, &l);
    let mut codec = PassThrough { frames: 0 };
    assert_eq!(s.process_frames(&mut codec), Ok(()));
    assert_eq!(codec.frames, 2);
    assert_eq!(s.input_len(), 10);
    assert_eq!(s.output_len(), FRAME_SIZE * 3);
}

#[test]
fn lossy_round_trip_output_is_decoded_frame() {
    let mut s = FrameStream::new();
    let input: Vec<u32> = vec![1.0f32.to_bits(); 240];
    let mut lo = vec![0u32; 240];
    let mut ro = vec![0u32; 240];
    s.process_samples(&mut Halve, &input, &input, &mut lo, &mut ro).unwrap();
    assert!(lo[..FRAME_SIZE].iter().all(|x| *x == 0));
    assert!(lo[FRAME_SIZE..].iter().all(|x| f32::from_bits(*x) == 0.5));
    assert!(ro[FRAME_SIZE..].iter().all(|x| f32::from_bits(*x) == 0.5));
}

#[test]
fn take_frame_needs_a_whole_frame() {
    let mut s = FrameStream::new();
    let l = ramp(0, 119);
    let r = ramp(500, 119);
    s.load_input(&l, &r);
    let mut frame = vec![9u32; INTERLEAVED_FRAME_SIZE];
    assert!(!s.take_frame(&mut frame));
    assert!(frame.iter().all(|x| *x == 9));
    s.load_input(&ramp(119, 3), &ramp(619, 3));
    assert!(s.take_frame(&mut frame));
    assert_eq!(frame[0], 0f32.to_bits());
    assert_eq!(frame[1], 500f32.to_bits());
    assert_eq!(frame[238], 119f32.to_bits());
    assert_eq!(frame[239], 619f32.to_bits());
    assert_eq!(s.input_len(), 2);
}

#[test]
fn store_output_takes_oldest_samples() {
    let mut s = FrameStream::new();
    let mut frame = ramp(1, INTERLEAVED_FRAME_SIZE);
    frame[0] = 42;
    assert_eq!(s.accept_frame(&frame, Some(FRAME_SIZE)), Ok(()));
    assert_eq!(s.output_len(), 2 * FRAME_SIZE);
    let mut l = vec![0u32; 121];
    let mut r = vec![0u32; 121];
    s.store_output(&mut l, &mut r);
    assert!(l[..120].iter().all(|x| *x == 0));
    assert_eq!(l[120], 42);
    assert_eq!(r[120], 2f32.to_bits());
    assert_eq!(s.output_len(), FRAME_SIZE - 1);
}

#[test]
fn failing_codec_is_reported() {
    let mut s = FrameStream::new();
    let block = vec![0u32; 200];
    let mut lo = vec![0u32; 200];
    let mut ro = vec![0u32; 200];
    assert_eq!(
        s.process_samples(&mut Failing, &block, &block, &mut lo, &mut ro),
        Err(RoundTripError::CodecFailed)
    );
}

#[test]
fn short_decode_is_reported() {
    let mut s = FrameStream::new();
    let block = vec![0u32; 200];
    let mut lo = vec![0u32; 200];
    let mut ro = vec![0u32; 200];
    assert_eq!(
        s.process_samples(&mut ShortFrames, &block, &block, &mut lo, &mut ro),
        Err(RoundTripError::WrongFrameSize)
    );
}

#[test]
fn resized_frame_is_reported() {
    let mut s = FrameStream::new();
    let block = vec![0u32; 120];
    let mut lo = vec![0u32; 120];
    let mut ro = vec![0u32; 120];
    assert_eq!(
        s.process_samples(&mut Truncating, &block, &block, &mut lo, &mut ro),
        Err(RoundTripError::WrongFrameSize)
    );
}

#[test]
fn accept_frame_checks_what_was_decoded() {
    let mut s = FrameStream::new();
    let frame = vec![0u32; INTERLEAVED_FRAME_SIZE];
    assert_eq!(s.accept_frame(&frame, None), Err(RoundTripError::CodecFailed));
    assert_eq!(s.accept_frame(&frame, Some(60)), Err(RoundTripError::WrongFrameSize));
    assert_eq!(s.accept_frame(&frame[..10], Some(FRAME_SIZE)), Err(RoundTripError::WrongFrameSize));
    assert_eq!(s.output_len(), FRAME_SIZE);
}

#[test]
fn sub_frame_call_runs_no_codec() {
    let mut s = FrameStream::new();
    let l = ramp(1, 50);
    let mut lo = vec![5u32; 50];
    let mut ro = vec![5u32; 50];
    assert_eq!(s.process_samples(&mut Failing, &l, &l, &mut lo, &mut ro), Ok(()));
    assert!(lo.iter().all(|x| *x == 0));
    assert_eq!(s.input_len(), 50);
    assert_eq!(s.output_len(), 70);
}

#[test]
fn latency_is_frame_plus_lookahead() {
    assert_eq!(total_latency(0), Some(120));
    assert_eq!(total_latency(120), Some(240));
    assert_eq!(total_latency(u32::MAX - 120), Some(u32::MAX));
    assert_eq!(total_latency(u32::MAX - 119), None);
}

#[test]
fn long_silence_stays_silent() {
    let mut s = FrameStream::new();
    let mut codec = PassThrough { frames: 0 };
    for n in [64usize, 256, 1, 119, 200, 256] {
        let z = vec![0u32; n];
        let mut lo = vec![3u32; n];
        let mut ro = vec![3u32; n];
        s.process_samples(&mut codec, &z, &z, &mut lo, &mut ro).unwrap();
        assert!(lo.iter().chain(ro.iter()).all(|x| *x == 0));
    }
}
