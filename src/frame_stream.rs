//! The frame-quantizing stereo stream.
//!
//! Host blocks of any length up to `MAX_INPUT_BLOCK_SIZE` are appended to the
//! input staging area. Whole frames of `FRAME_SIZE` samples are taken from its
//! front, interleaved, for an encode/decode round trip; the decoded frames are
//! appended to the output staging area, from which the host takes exactly the
//! number of samples it asks for. The output starts with one frame of silence,
//! so that "write N, round-trip whole frames, read N" never runs dry.

use vstd::prelude::*;
use crate::util::{interleave, interleave_seq, left_of, right_of};

verus! {

/// Samples per channel in one codec frame: 2.5 ms at 48 kHz.
pub const FRAME_SIZE: usize = 120;

/// The largest host block, in samples per channel.
pub const MAX_INPUT_BLOCK_SIZE: usize = 256;

/// Capacity of each staging buffer, in samples per channel.
pub const BUFFER_SIZE: usize = FRAME_SIZE + MAX_INPUT_BLOCK_SIZE;

/// Samples per interleaved stereo frame.
pub const INTERLEAVED_FRAME_SIZE: usize = 2 * FRAME_SIZE;

/// A sequence of `len` silent samples (the bit pattern of `+0.0`).
pub open spec fn silence(len: nat) -> Seq<u32> {
    Seq::new(len, |i: int| 0u32)
}

/// Input and output staging buffers for both channels, each of fixed
/// capacity `BUFFER_SIZE`, with one valid length per staging area, and the
/// scratch frame handed to the round trip.
pub struct FrameStream {
    left_input: Vec<u32>,
    right_input: Vec<u32>,
    left_output: Vec<u32>,
    right_output: Vec<u32>,
    input_samples_available: usize,
    output_samples_available: usize,
    packet_samples: Vec<u32>,
}

/// What a frame's encode/decode round trip reported when it went wrong.
#[derive(Debug, Clone, Copy, PartialEq, Eq, Structural)]
pub enum RoundTripError {
    /// The codec rejected the frame or the packet.
    CodecFailed,
    /// The decoded frame did not hold exactly `FRAME_SIZE` samples per channel.
    WrongFrameSize,
}

/// The encode-then-decode step applied to each whole frame.
pub trait FrameRoundTrip {
    /// Replaces the interleaved stereo frame in `frame` by its decoded form and
    /// returns the number of samples per channel decoded, or `None` where the
    /// codec failed.
    fn round_trip(&mut self, frame: &mut Vec<u32>) -> Option<usize>;
}

/// Copies `v[from..end]` down to the start of `v`.
fn shift_down(v: &mut Vec<u32>, from: usize, end: usize)
    requires
        from <= end <= old(v)@.len(),
    ensures
        final(v)@.len() == old(v)@.len(),
        final(v)@.subrange(0, end - from) == old(v)@.subrange(from as int, end as int),
{
    let count = end - from;
    let mut i: usize = 0;
    while i < count
        invariant
            count == end - from,
            from <= end <= v@.len(),
            v@.len() == old(v)@.len(),
            i <= count,
            forall|k: int| 0 <= k < i ==> #[trigger] v@[k] == old(v)@[from + k],
            forall|k: int| i <= k < v@.len() ==> #[trigger] v@[k] == old(v)@[k],
        decreases count - i,
    {
        let x = v[from + i];
        v.set(i, x);
        i = i + 1;
    }
    assert(v@.subrange(0, end - from) =~= old(v)@.subrange(from as int, end as int));
}

/// Copies `src` into `v[at..at + src.len()]`.
fn write_at(v: &mut Vec<u32>, at: usize, src: &[u32])
    requires
        at + src@.len() <= old(v)@.len(),
    ensures
        final(v)@.len() == old(v)@.len(),
        final(v)@.subrange(0, at as int) == old(v)@.subrange(0, at as int),
        final(v)@.subrange(at as int, at + src@.len()) == src@,
{
    let n = src.len();
    let cap = v.len();
    let mut i: usize = 0;
    while i < n
        invariant
            n == src@.len(),
            cap == v@.len(),
            at + n <= v@.len(),
            v@.len() == old(v)@.len(),
            i <= n,
            forall|k: int| 0 <= k < at ==> #[trigger] v@[k] == old(v)@[k],
            forall|k: int| 0 <= k < i ==> #[trigger] v@[at + k] == src@[k],
        decreases n - i,
    {
        v.set(at + i, src[i]);
        i = i + 1;
    }
    assert(v@.subrange(0, at as int) =~= old(v)@.subrange(0, at as int));
    assert forall|k: int| 0 <= k < n implies #[trigger] v@.subrange(at as int, at + n)[k] == src@[k] by {
        assert(v@[at + k] == src@[k]);
    }
    assert(v@.subrange(at as int, at + n) =~= src@);
}

impl FrameStream {
    /// Buffers have their fixed capacity and the valid lengths fit in them.
    pub closed spec fn wf(&self) -> bool {
        &&& self.left_input@.len() == BUFFER_SIZE
        &&& self.right_input@.len() == BUFFER_SIZE
        &&& self.left_output@.len() == BUFFER_SIZE
        &&& self.right_output@.len() == BUFFER_SIZE
        &&& self.input_samples_available <= BUFFER_SIZE
        &&& self.output_samples_available <= BUFFER_SIZE
    }

    /// Left samples waiting to be grouped into a frame, oldest first.
    pub closed spec fn input_left(&self) -> Seq<u32> {
        self.left_input@.subrange(0, self.input_samples_available as int)
    }

    /// Right samples waiting to be grouped into a frame, oldest first.
    pub closed spec fn input_right(&self) -> Seq<u32> {
        self.right_input@.subrange(0, self.input_samples_available as int)
    }

    /// Left samples waiting to be delivered to the host, oldest first.
    pub closed spec fn output_left(&self) -> Seq<u32> {
        self.left_output@.subrange(0, self.output_samples_available as int)
    }

    /// Right samples waiting to be delivered to the host, oldest first.
    pub closed spec fn output_right(&self) -> Seq<u32> {
        self.right_output@.subrange(0, self.output_samples_available as int)
    }

    /// Both channels of each staging area hold the same number of samples,
    /// within the buffer capacity.
    pub proof fn lemma_shape(&self)
        requires
            self.wf(),
        ensures
            self.input_left().len() == self.input_right().len() <= BUFFER_SIZE,
            self.output_left().len() == self.output_right().len() <= BUFFER_SIZE,
    {
    }

    /// The state a host call starts and ends in: the input holds less than a
    /// frame, and input and output together hold exactly one frame.
    pub open spec fn steady(&self) -> bool {
        &&& self.wf()
        &&& self.input_left().len() < FRAME_SIZE
        &&& self.input_left().len() + self.output_left().len() == FRAME_SIZE
    }

    /// An empty input and one frame of silence queued for output.
    pub fn new() -> (s: Self)
        ensures
            s.wf(),
            s.steady(),
            s.input_left() == Seq::<u32>::empty(),
            s.input_right() == Seq::<u32>::empty(),
            s.output_left() == silence(FRAME_SIZE as nat),
            s.output_right() == silence(FRAME_SIZE as nat),
    {
        let s = FrameStream {
            left_input: vec![0u32; BUFFER_SIZE],
            right_input: vec![0u32; BUFFER_SIZE],
            left_output: vec![0u32; BUFFER_SIZE],
            right_output: vec![0u32; BUFFER_SIZE],
            input_samples_available: 0,
            output_samples_available: FRAME_SIZE,
            packet_samples: vec![0u32; INTERLEAVED_FRAME_SIZE],
        };
        assert(s.input_left() =~= Seq::<u32>::empty());
        assert(s.input_right() =~= Seq::<u32>::empty());
        assert(s.output_left() =~= silence(FRAME_SIZE as nat));
        assert(s.output_right() =~= silence(FRAME_SIZE as nat));
        s
    }

    /// Takes the oldest whole frame from the input, if there is one, and writes
    /// it interleaved into `frame`. Returns whether a frame was taken.
    pub fn take_frame(&mut self, frame: &mut [u32]) -> (taken: bool)
        requires
            old(self).wf(),
            old(frame)@.len() == INTERLEAVED_FRAME_SIZE,
        ensures
            final(self).wf(),
            taken == (old(self).input_left().len() >= FRAME_SIZE),
            taken ==> final(frame)@ == interleave_seq(
                old(self).input_left().take(FRAME_SIZE as int),
                old(self).input_right().take(FRAME_SIZE as int),
            ),
            taken ==> final(self).input_left() == old(self).input_left().skip(FRAME_SIZE as int),
            taken ==> final(self).input_right() == old(self).input_right().skip(FRAME_SIZE as int),
            !taken ==> final(frame)@ == old(frame)@,
            !taken ==> final(self).input_left() == old(self).input_left(),
            !taken ==> final(self).input_right() == old(self).input_right(),
            final(self).output_left() == old(self).output_left(),
            final(self).output_right() == old(self).output_right(),
    {
        if self.input_samples_available < FRAME_SIZE {
            return false;
        }
        let available = self.input_samples_available;
        interleave(
            &self.left_input.as_slice()[0..FRAME_SIZE],
            &self.right_input.as_slice()[0..FRAME_SIZE],
            frame,
        );
        shift_down(&mut self.left_input, FRAME_SIZE, available);
        shift_down(&mut self.right_input, FRAME_SIZE, available);
        self.input_samples_available = available - FRAME_SIZE;
        assert(self.input_left() =~= old(self).input_left().skip(FRAME_SIZE as int));
        assert(self.input_right() =~= old(self).input_right().skip(FRAME_SIZE as int));
        assert(old(self).left_input@.subrange(0, FRAME_SIZE as int) =~= old(self).input_left().take(FRAME_SIZE as int));
        assert(old(self).right_input@.subrange(0, FRAME_SIZE as int) =~= old(self).input_right().take(FRAME_SIZE as int));
        true
    }
    /// Appends a decoded interleaved frame to the output: its even positions to
    /// the left channel, its odd positions to the right.
    pub fn put_frame(&mut self, frame: &[u32])
        requires
            old(self).wf(),
            frame@.len() == INTERLEAVED_FRAME_SIZE,
            old(self).output_left().len() + FRAME_SIZE <= BUFFER_SIZE,
        ensures
            final(self).wf(),
            final(self).output_left() == old(self).output_left() + left_of(frame@),
            final(self).output_right() == old(self).output_right() + right_of(frame@),
            final(self).input_left() == old(self).input_left(),
            final(self).input_right() == old(self).input_right(),
    {
        let start = self.output_samples_available;
        let mut i: usize = 0;
        while i < FRAME_SIZE
            invariant
                start == old(self).output_samples_available,
                start + FRAME_SIZE <= BUFFER_SIZE,
                frame@.len() == INTERLEAVED_FRAME_SIZE,
                old(self).wf(),
                self.wf(),
                self.input_samples_available == old(self).input_samples_available,
                self.output_samples_available == start,
                self.left_input == old(self).left_input,
                self.right_input == old(self).right_input,
                i <= FRAME_SIZE,
                forall|k: int| 0 <= k < start ==> #[trigger] self.left_output@[k] == old(self).left_output@[k],
                forall|k: int| 0 <= k < start ==> #[trigger] self.right_output@[k] == old(self).right_output@[k],
                forall|k: int| 0 <= k < i ==> #[trigger] self.left_output@[start + k] == frame@[2 * k],
                forall|k: int| 0 <= k < i ==> #[trigger] self.right_output@[start + k] == frame@[2 * k + 1],
            decreases FRAME_SIZE - i,
        {
            self.left_output.set(start + i, frame[2 * i]);
            self.right_output.set(start + i, frame[2 * i + 1]);
            i = i + 1;
        }
        self.output_samples_available = start + FRAME_SIZE;
        assert forall|k: int| 0 <= k < start + FRAME_SIZE implies #[trigger] self.output_left()[k]
            == (old(self).output_left() + left_of(frame@))[k] by {
            if k >= start {
                assert(self.left_output@[start + (k - start)] == frame@[2 * (k - start)]);
            }
        }
        assert forall|k: int| 0 <= k < start + FRAME_SIZE implies #[trigger] self.output_right()[k]
            == (old(self).output_right() + right_of(frame@))[k] by {
            if k >= start {
                assert(self.right_output@[start + (k - start)] == frame@[2 * (k - start) + 1]);
            }
        }
        assert(self.output_left() =~= old(self).output_left() + left_of(frame@));
        assert(self.output_right() =~= old(self).output_right() + right_of(frame@));
    }

    /// Checks what the round trip reported for `frame` and, where it decoded
    /// exactly one frame, appends it to the output.
    pub fn accept_frame(&mut self, frame: &[u32], decoded: Option<usize>) -> (r: Result<
        (),
        RoundTripError,
    >)
        requires
            old(self).wf(),
            old(self).output_left().len() + FRAME_SIZE <= BUFFER_SIZE,
        ensures
            final(self).wf(),
            r == (if decoded is None {
                Err(RoundTripError::CodecFailed)
            } else if decoded != Some(FRAME_SIZE) || frame@.len() != INTERLEAVED_FRAME_SIZE {
                Err(RoundTripError::WrongFrameSize)
            } else {
                Ok::<(), RoundTripError>(())
            }),
            r is Ok ==> final(self).output_left() == old(self).output_left() + left_of(frame@),
            r is Ok ==> final(self).output_right() == old(self).output_right() + right_of(
                frame@,
            ),
            r is Err ==> final(self).output_left() == old(self).output_left(),
            r is Err ==> final(self).output_right() == old(self).output_right(),
            final(self).input_left() == old(self).input_left(),
            final(self).input_right() == old(self).input_right(),
    {
        match decoded {
            None => Err(RoundTripError::CodecFailed),
            Some(n) => {
                if n != FRAME_SIZE || frame.len() != INTERLEAVED_FRAME_SIZE {
                    Err(RoundTripError::WrongFrameSize)
                } else {
                    self.put_frame(frame);
                    Ok(())
                }
            },
        }
    }

    /// Sends every whole frame of the input through `codec`, oldest first, and
    /// appends the decoded frames to the output. Stops at the first failure.
    pub fn process_frames<C: FrameRoundTrip>(&mut self, codec: &mut C) -> (r: Result<
        (),
        RoundTripError,
    >)
        requires
            old(self).wf(),
            old(self).output_left().len() + FRAME_SIZE * (old(self).input_left().len() / (
            FRAME_SIZE as nat)) <= BUFFER_SIZE,
        ensures
            final(self).wf(),
            old(self).input_left().len() < FRAME_SIZE ==> r is Ok && *final(self) == *old(self),
            r is Ok ==> final(self).input_left() == old(self).input_left().skip(
                FRAME_SIZE * (old(self).input_left().len() / (FRAME_SIZE as nat)),
            ),
            r is Ok ==> final(self).input_right() == old(self).input_right().skip(
                FRAME_SIZE * (old(self).input_left().len() / (FRAME_SIZE as nat)),
            ),
            r is Ok ==> final(self).output_left().len() == old(self).output_left().len()
                + FRAME_SIZE * (old(self).input_left().len() / (FRAME_SIZE as nat)),
            r is Ok ==> final(self).output_left().take(old(self).output_left().len() as int)
                == old(self).output_left(),
            r is Ok ==> final(self).output_right().take(old(self).output_left().len() as int)
                == old(self).output_right(),
    {
        let ghost start = *self;
        let ghost frames: int = 0;
        while self.input_samples_available >= FRAME_SIZE
            invariant
                start == *old(self),
                start.wf(),
                self.wf(),
                0 <= frames,
                start.output_left().len() + FRAME_SIZE * (start.input_left().len() / (
                FRAME_SIZE as nat)) <= BUFFER_SIZE,
                self.input_left().len() + FRAME_SIZE * frames == start.input_left().len(),
                self.output_left().len() == start.output_left().len() + FRAME_SIZE * frames,
                self.input_left() == start.input_left().skip(FRAME_SIZE * frames),
                self.input_right() == start.input_right().skip(FRAME_SIZE * frames),
                self.output_left().take(start.output_left().len() as int) == start.output_left(),
                self.output_right().take(start.output_left().len() as int)
                    == start.output_right(),
                frames == 0 ==> *self == start,
            decreases self.input_samples_available,
        {
            proof {
                self.lemma_shape();
                start.lemma_shape();
                assert(FRAME_SIZE * (frames + 1) <= start.input_left().len());
                assert(frames + 1 <= start.input_left().len() / (FRAME_SIZE as nat));
            }
            let mut frame: Vec<u32> = Vec::new();
            std::mem::swap(&mut frame, &mut self.packet_samples);
            if frame.len() != INTERLEAVED_FRAME_SIZE {
                // Only after a round trip that resized the frame.
                frame = vec![0u32; INTERLEAVED_FRAME_SIZE];
            }
            self.take_frame(frame.as_mut_slice());
            let decoded = codec.round_trip(&mut frame);
            let accepted = self.accept_frame(frame.as_slice(), decoded);
            std::mem::swap(&mut frame, &mut self.packet_samples);
            match accepted {
                Err(e) => {
                    return Err(e);
                },
                Ok(()) => {},
            }
            proof {
                let k = FRAME_SIZE * frames;
                assert(self.input_left() =~= start.input_left().skip(k + FRAME_SIZE));
                assert(self.input_right() =~= start.input_right().skip(k + FRAME_SIZE));
                assert(self.output_left().take(start.output_left().len() as int)
                    =~= start.output_left());
                assert(self.output_right().take(start.output_left().len() as int)
                    =~= start.output_right());
                frames = frames + 1;
            }
        }
        proof {
            self.lemma_shape();
            start.lemma_shape();
        }
        Ok(())
    }

    /// One host call: appends the input block, sends every whole frame through
    /// `codec`, and fills the output slices with the oldest output samples.
    /// On `Err` the stream is left part-way and is not to be used again.
    pub fn process_samples<C: FrameRoundTrip>(
        &mut self,
        codec: &mut C,
        left_in: &[u32],
        right_in: &[u32],
        left_out: &mut [u32],
        right_out: &mut [u32],
    ) -> (r: Result<(), RoundTripError>)
        requires
            old(self).steady(),
            right_in@.len() == left_in@.len(),
            old(left_out)@.len() == left_in@.len(),
            old(right_out)@.len() == left_in@.len(),
            left_in@.len() <= MAX_INPUT_BLOCK_SIZE,
        ensures
            final(left_out)@.len() == left_in@.len(),
            final(right_out)@.len() == left_in@.len(),
            r is Ok ==> final(self).steady(),
            r is Ok ==> final(self).input_left() == (old(self).input_left() + left_in@).skip(
                FRAME_SIZE * ((old(self).input_left().len() + left_in@.len()) / (
                FRAME_SIZE as nat)),
            ),
            r is Ok ==> final(self).input_right() == (old(self).input_right()
                + right_in@).skip(
                FRAME_SIZE * ((old(self).input_left().len() + left_in@.len()) / (
                FRAME_SIZE as nat)),
            ),
            r is Ok ==> (final(left_out)@ + final(self).output_left()).take(
                old(self).output_left().len() as int,
            ) == old(self).output_left(),
            r is Ok ==> (final(right_out)@ + final(self).output_right()).take(
                old(self).output_left().len() as int,
            ) == old(self).output_right(),
            old(self).input_left().len() + left_in@.len() < FRAME_SIZE ==> {
                &&& r is Ok
                &&& final(left_out)@ == old(self).output_left().take(left_in@.len() as int)
                &&& final(right_out)@ == old(self).output_right().take(left_in@.len() as int)
                &&& final(self).input_left() == old(self).input_left() + left_in@
                &&& final(self).input_right() == old(self).input_right() + right_in@
            },
    {
        proof {
            self.lemma_shape();
        }
        self.load_input(left_in, right_in);
        let ghost loaded = *self;
        proof {
            loaded.lemma_shape();
        }
        match self.process_frames(codec) {
            Err(e) => {
                return Err(e);
            },
            Ok(()) => {},
        }
        let ghost drained = *self;
        proof {
            drained.lemma_shape();
            assert(drained.output_left() =~= drained.output_left().take(
                old(self).output_left().len() as int,
            ) + drained.output_left().skip(old(self).output_left().len() as int));
        }
        self.store_output(left_out, right_out);
        proof {
            self.lemma_shape();
            assert(left_out@ + self.output_left() =~= drained.output_left());
            assert(right_out@ + self.output_right() =~= drained.output_right());
        }
        Ok(())
    }

    /// Appends a host block to the input staging area.
    pub fn load_input(&mut self, left: &[u32], right: &[u32])
        requires
            old(self).wf(),
            right@.len() == left@.len(),
            left@.len() <= MAX_INPUT_BLOCK_SIZE,
            old(self).input_left().len() + left@.len() <= BUFFER_SIZE,
        ensures
            final(self).wf(),
            final(self).input_left() == old(self).input_left() + left@,
            final(self).input_right() == old(self).input_right() + right@,
            final(self).output_left() == old(self).output_left(),
            final(self).output_right() == old(self).output_right(),
    {
        let start = self.input_samples_available;
        write_at(&mut self.left_input, start, left);
        write_at(&mut self.right_input, start, right);
        self.input_samples_available = start + left.len();
        assert(self.input_left() =~= old(self).input_left() + left@) by {
            assert(self.left_input@.subrange(0, start as int) == old(self).input_left());
            assert(self.input_left() =~= self.left_input@.subrange(0, start as int)
                + self.left_input@.subrange(start as int, start + left@.len()));
        }
        assert(self.input_right() =~= old(self).input_right() + right@) by {
            assert(self.right_input@.subrange(0, start as int) == old(self).input_right());
            assert(self.input_right() =~= self.right_input@.subrange(0, start as int)
                + self.right_input@.subrange(start as int, start + right@.len()));
        }
    }

    /// Delivers the oldest `left.len()` output samples of each channel into
    /// `left` and `right`, and removes them from the output staging area.
    pub fn store_output(&mut self, left: &mut [u32], right: &mut [u32])
        requires
            old(self).wf(),
            old(right)@.len() == old(left)@.len(),
            old(left)@.len() <= MAX_INPUT_BLOCK_SIZE,
            old(left)@.len() <= old(self).output_left().len(),
        ensures
            final(self).wf(),
            final(left)@ == old(self).output_left().take(old(left)@.len() as int),
            final(right)@ == old(self).output_right().take(old(left)@.len() as int),
            final(self).output_left() == old(self).output_left().skip(old(left)@.len() as int),
            final(self).output_right() == old(self).output_right().skip(old(left)@.len() as int),
            final(self).input_left() == old(self).input_left(),
            final(self).input_right() == old(self).input_right(),
    {
        let num_samples = left.len();
        let available = self.output_samples_available;
        let mut i: usize = 0;
        while i < num_samples
            invariant
                num_samples == left@.len(),
                right@.len() == num_samples,
                num_samples <= available,
                *self == *old(self),
                available == self.output_samples_available,
                self.wf(),
                i <= num_samples,
                forall|k: int| 0 <= k < i ==> #[trigger] left@[k] == self.left_output@[k],
                forall|k: int| 0 <= k < i ==> #[trigger] right@[k] == self.right_output@[k],
            decreases num_samples - i,
        {
            left[i] = self.left_output[i];
            right[i] = self.right_output[i];
            i = i + 1;
        }
        assert(left@ =~= old(self).output_left().take(num_samples as int));
        assert(right@ =~= old(self).output_right().take(num_samples as int));
        shift_down(&mut self.left_output, num_samples, available);
        shift_down(&mut self.right_output, num_samples, available);
        self.output_samples_available = available - num_samples;
        assert(self.output_left() =~= old(self).output_left().skip(num_samples as int));
        assert(self.output_right() =~= old(self).output_right().skip(num_samples as int));
    }

    /// Samples per channel waiting in the input staging area.
    pub fn input_len(&self) -> (n: usize)
        requires
            self.wf(),
        ensures
            n == self.input_left().len(),
    {
        self.input_samples_available
    }

    /// Samples per channel waiting in the output staging area.
    pub fn output_len(&self) -> (n: usize)
        requires
            self.wf(),
        ensures
            n == self.output_left().len(),
    {
        self.output_samples_available
    }
}

/// How many times in a row `take_frame` succeeds on an input of `len` samples.
pub open spec fn frames_drained(len: nat) -> nat
    decreases len,
{
    if len >= FRAME_SIZE {
        1 + frames_drained((len - FRAME_SIZE) as nat)
    } else {
        0
    }
}

/// The input length left once `take_frame` has failed on an input of `len` samples.
pub open spec fn carry_after(len: nat) -> nat
    decreases len,
{
    if len >= FRAME_SIZE {
        carry_after((len - FRAME_SIZE) as nat)
    } else {
        len
    }
}

/// Draining whole frames after loading `n` samples onto a carry of `carry`
/// yields `(carry + n) / FRAME_SIZE` frames and leaves the remainder as the
/// new carry.
pub proof fn lemma_frame_quantization(carry: nat, n: nat)
    ensures
        frames_drained(carry + n) == (carry + n) / (FRAME_SIZE as nat),
        carry_after(carry + n) == (carry + n) % (FRAME_SIZE as nat),
    decreases carry + n,
{
    let len = carry + n;
    if len >= FRAME_SIZE {
        lemma_frame_quantization((len - FRAME_SIZE) as nat, 0);
    }
}

/// One host call (load `n` samples, drain whole frames, deliver `n` samples),
/// starting from a stream that holds `carry` input and `queued` output samples
/// with `carry + queued == FRAME_SIZE` (as a new stream does): the load fits,
/// every frame fits in the output, the delivery never runs dry, and afterwards
/// the stream again holds exactly `FRAME_SIZE` samples in all. So every call
/// hands out as many samples as it received, one frame later.
pub proof fn lemma_call_keeps_one_frame_in_flight(carry: nat, queued: nat, n: nat)
    requires
        carry < FRAME_SIZE,
        carry + queued == FRAME_SIZE,
        n <= MAX_INPUT_BLOCK_SIZE,
    ensures
        carry + n <= BUFFER_SIZE,
        queued + FRAME_SIZE * frames_drained(carry + n) <= BUFFER_SIZE,
        n <= queued + FRAME_SIZE * frames_drained(carry + n),
        carry_after(carry + n) < FRAME_SIZE,
        carry_after(carry + n) + (queued + FRAME_SIZE * frames_drained(carry + n) - n)
            == FRAME_SIZE,
{
    lemma_frame_quantization(carry, n);
}

/// A frame that comes back from the round trip unchanged moves from the
/// input to the output with its samples in their original order: the output
/// followed by the input holds the same samples before and after.
pub proof fn lemma_unchanged_frame_keeps_order(
    before: FrameStream,
    frame: Seq<u32>,
    taken: FrameStream,
    after: FrameStream,
)
    requires
        before.wf(),
        before.input_left().len() >= FRAME_SIZE,
        frame == interleave_seq(
            before.input_left().take(FRAME_SIZE as int),
            before.input_right().take(FRAME_SIZE as int),
        ),
        taken.input_left() == before.input_left().skip(FRAME_SIZE as int),
        taken.input_right() == before.input_right().skip(FRAME_SIZE as int),
        taken.output_left() == before.output_left(),
        taken.output_right() == before.output_right(),
        after.output_left() == taken.output_left() + left_of(frame),
        after.output_right() == taken.output_right() + right_of(frame),
        after.input_left() == taken.input_left(),
        after.input_right() == taken.input_right(),
    ensures
        after.output_left() + after.input_left() == before.output_left() + before.input_left(),
        after.output_right() + after.input_right() == before.output_right()
            + before.input_right(),
{
    let l = before.input_left();
    let r = before.input_right();
    crate::util::lemma_interleave_round_trip(l.take(FRAME_SIZE as int), r.take(FRAME_SIZE as int));
    assert(l =~= l.take(FRAME_SIZE as int) + l.skip(FRAME_SIZE as int));
    assert(r =~= r.take(FRAME_SIZE as int) + r.skip(FRAME_SIZE as int));
    assert(after.output_left() + after.input_left() =~= before.output_left() + l);
    assert(after.output_right() + after.input_right() =~= before.output_right() + r);
}

/// The end-to-end delay in samples that the host must compensate: one frame
/// of staging plus the encoder's own lookahead. `None` where the sum does not
/// fit in a `u32`.
pub fn total_latency(lookahead: u32) -> (latency: Option<u32>)
    ensures
        latency == (if FRAME_SIZE + lookahead <= u32::MAX {
            Some((FRAME_SIZE + lookahead) as u32)
        } else {
            None::<u32>
        }),
{
    lookahead.checked_add(FRAME_SIZE as u32)
}

/// The input carry after host calls with the given block sizes, starting
/// from a new stream.
pub open spec fn carry_after_calls(blocks: Seq<nat>) -> nat
    decreases blocks.len(),
{
    if blocks.len() == 0 {
        0
    } else {
        carry_after(carry_after_calls(blocks.drop_last()) + blocks.last())
    }
}

/// Along any sequence of host calls with blocks of at most
/// `MAX_INPUT_BLOCK_SIZE` samples, each call's load fits in the input, each
/// decoded frame fits in the output, and the delivery never finds fewer
/// output samples than the host asks for.
pub proof fn lemma_call_sequence_never_underflows(blocks: Seq<nat>)
    requires
        forall|i: int| 0 <= i < blocks.len() ==> #[trigger] blocks[i] <= MAX_INPUT_BLOCK_SIZE,
    ensures
        forall|i: int|
            0 <= i < blocks.len() ==> {
                let carry = carry_after_calls(#[trigger] blocks.take(i));
                let queued = (FRAME_SIZE - carry) as nat;
                let frames = frames_drained(carry + blocks[i]);
                &&& carry < FRAME_SIZE
                &&& carry + blocks[i] <= BUFFER_SIZE
                &&& queued + FRAME_SIZE * frames <= BUFFER_SIZE
                &&& blocks[i] <= queued + FRAME_SIZE * frames
            },
{
    assert forall|i: int| 0 <= i < blocks.len() implies {
        let carry = carry_after_calls(#[trigger] blocks.take(i));
        let queued = (FRAME_SIZE - carry) as nat;
        let frames = frames_drained(carry + blocks[i]);
        &&& carry < FRAME_SIZE
        &&& carry + blocks[i] <= BUFFER_SIZE
        &&& queued + FRAME_SIZE * frames <= BUFFER_SIZE
        &&& blocks[i] <= queued + FRAME_SIZE * frames
    } by {
        let prefix = blocks.take(i);
        if prefix.len() > 0 {
            lemma_frame_quantization(carry_after_calls(prefix.drop_last()), prefix.last());
        }
        let carry = carry_after_calls(prefix);
        lemma_call_keeps_one_frame_in_flight(carry, (FRAME_SIZE - carry) as nat, blocks[i]);
    }
}

} // verus!
