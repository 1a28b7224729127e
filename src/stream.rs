use vstd::prelude::*;

verus! {

/// Channel count and sample rate of a stream.
///
/// A well-formed format has at least one channel and a positive sample rate.
/// Samples are interleaved: frame `i`, channel `c` sits at index
/// `i * channels + c`.
#[derive(Clone, Copy, Debug, PartialEq, Eq, Structural)]
pub struct AudioFormat {
    pub channels: u8,
    pub sample_rate: u32,
}

impl AudioFormat {
    pub open spec fn wf(&self) -> bool {
        self.channels >= 1 && self.sample_rate >= 1
    }

    /// A format with the given channel count and rate, or `None` where either is zero.
    pub fn new(channels: u8, sample_rate: u32) -> (r: Option<AudioFormat>)
        ensures
            r is Some <==> channels >= 1 && sample_rate >= 1,
            r matches Some(f) ==> f.channels == channels && f.sample_rate == sample_rate && f.wf(),
    {
        if channels >= 1 && sample_rate >= 1 {
            Some(AudioFormat { channels, sample_rate })
        } else {
            None
        }
    }

    /// Number of whole frames in a buffer of `len` samples.
    pub fn frames(&self, len: usize) -> (r: usize)
        requires
            self.wf(),
        ensures
            r as int == len as int / self.channels as int,
            r * self.channels as int <= len as int,
    {
        let r = len / (self.channels as usize);
        proof {
            vstd::arithmetic::div_mod::lemma_fundamental_div_mod(len as int, self.channels as int);
            vstd::arithmetic::div_mod::lemma_mod_pos_bound(len as int, self.channels as int);
            vstd::arithmetic::mul::lemma_mul_is_commutative(r as int, self.channels as int);
        }
        r
    }
}

/// What a read left behind besides its sample count.
#[derive(Clone, Copy, Debug, PartialEq, Eq, Structural)]
pub enum StreamState {
    /// The buffer was filled and the stream goes on.
    Good,
    /// Fewer samples were ready than were asked for; more may come later.
    Underrun,
    /// The stream has ended: nothing more will come.
    Finished,
}

/// The outcome of one read: how many samples were written, and the stream's state.
#[derive(Clone, Copy, Debug, PartialEq, Eq, Structural)]
pub struct ReadResult {
    pub read: usize,
    pub state: StreamState,
}

impl ReadResult {
    /// `read` samples were written and the stream goes on.
    pub fn good(read: usize) -> (r: ReadResult)
        ensures
            r == (ReadResult { read, state: StreamState::Good }),
    {
        ReadResult { read, state: StreamState::Good }
    }

    /// Only `read` samples were ready.
    pub fn underrun(read: usize) -> (r: ReadResult)
        ensures
            r == (ReadResult { read, state: StreamState::Underrun }),
    {
        ReadResult { read, state: StreamState::Underrun }
    }

    /// `read` samples were written and the stream then ended.
    pub fn finished(read: usize) -> (r: ReadResult)
        ensures
            r == (ReadResult { read, state: StreamState::Finished }),
    {
        ReadResult { read, state: StreamState::Finished }
    }
}

} // verus!
