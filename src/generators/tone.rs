use vstd::prelude::*;

use crate::stream::{AudioFormat, ReadResult, StreamState};

use vstd::arithmetic::div_mod::{
    lemma_fundamental_div_mod, lemma_fundamental_div_mod_converse, lemma_hoist_over_denominator,
    lemma_mod_pos_bound,
};
use vstd::arithmetic::mul::{lemma_mul_inequality, lemma_mul_is_distributive_add};

verus! {

/// The frame that each sample of a read belongs to, counted from the start
/// of the stream, when `len` samples at `channels` channels are read from
/// frame `start` on. A trailing partial frame is not read.
pub open spec fn rendered_frames(start: int, len: nat, channels: nat) -> Seq<int> {
    Seq::new((len / channels * channels) as nat, |k: int| start + k / (channels as int))
}

/// Index of the first sample of the frame that holds sample `k`.
pub open spec fn frame_base(k: int, channels: int) -> int {
    k / channels * channels
}

proof fn lemma_in_frame(i: int, c: int, channels: int)
    requires
        0 <= i,
        0 <= c < channels,
    ensures
        (i * channels + c) / channels == i,
        frame_base(i * channels + c, channels) == i * channels,
{
    lemma_fundamental_div_mod_converse(i * channels + c, channels, i, c);
}

proof fn lemma_frame_base_bound(k: int, channels: int)
    requires
        0 <= k,
        0 < channels,
    ensures
        0 <= frame_base(k, channels) <= k,
{
    lemma_fundamental_div_mod(k, channels);
    lemma_mod_pos_bound(k, channels);
    assert(k / channels >= 0);
    assert(frame_base(k, channels) == channels * (k / channels)) by (nonlinear_arith);
    assert(frame_base(k, channels) >= 0) by (nonlinear_arith)
        requires
            k / channels >= 0,
            channels > 0,
            frame_base(k, channels) == channels * (k / channels),
    ;
}

/// Two reads in a row, the first of whole frames, cover the same frames as
/// one read of their joint length: a generator's phase runs on across reads.
pub proof fn lemma_rendered_frames_split(start: int, a: nat, b: nat, channels: nat)
    requires
        channels >= 1,
        a % channels == 0,
    ensures
        rendered_frames(start, a, channels) + rendered_frames(
            start + a / channels,
            b,
            channels,
        ) == rendered_frames(start, a + b, channels),
{
    let ch = channels as int;
    let ai = a as int;
    let bi = b as int;
    let q = ai / ch;
    lemma_fundamental_div_mod(ai, ch);
    assert(ai == q * ch) by (nonlinear_arith)
        requires
            ai == ch * q + ai % ch,
            ai % ch == 0,
    ;
    lemma_hoist_over_denominator(bi, q, channels);
    assert((ai + bi) / ch == bi / ch + q);
    assert((bi / ch + q) * ch == (bi / ch) * ch + q * ch) by (nonlinear_arith);
    let lhs = rendered_frames(start, a, channels) + rendered_frames(start + q, b, channels);
    let rhs = rendered_frames(start, a + b, channels);
    assert(lhs.len() == rhs.len());
    assert forall|k: int| 0 <= k < rhs.len() implies lhs[k] == rhs[k] by {
        if k >= ai {
            lemma_hoist_over_denominator(k - ai, q, channels);
        }
    }
    assert(lhs =~= rhs);
}

/// The running phase of a generator, counted in frames since the stream
/// began: frame `n` of a tone is a function of `n` alone, so the phase never
/// drifts however long the stream runs.
#[derive(Clone, Copy, Debug)]
pub struct Phase {
    frame: u64,
}

impl Phase {
    /// Frames produced so far.
    pub closed spec fn elapsed(&self) -> nat {
        self.frame as nat
    }

    /// The phase at the start of a stream.
    pub fn new() -> (r: Phase)
        ensures
            r.elapsed() == 0,
    {
        Phase { frame: 0 }
    }

    /// Frames produced so far.
    pub fn frame(&self) -> (r: u64)
        ensures
            r == self.elapsed(),
    {
        self.frame
    }

    /// Fills the whole frames of `buffer`: every sample of the frame `n`
    /// frames into the stream gets the value `wave(n)`, the same on each
    /// channel. A trailing partial frame is left as it is. Reports the
    /// samples written and a stream that goes on.
    pub fn render<T: Copy, F: Fn(u64) -> T>(
        &mut self,
        format: AudioFormat,
        buffer: &mut [T],
        wave: F,
    ) -> (r: ReadResult)
        requires
            format.wf(),
            old(self).elapsed() + old(buffer)@.len() <= u64::MAX,
            forall|n: u64| wave.requires((n,)),
        ensures
            r.state == StreamState::Good,
            r.read as int == old(buffer)@.len() as int / format.channels as int
                * format.channels as int,
            final(self).elapsed() == old(self).elapsed() + old(buffer)@.len() as int
                / format.channels as int,
            final(buffer)@.len() == old(buffer)@.len(),
            forall|k: int|
                0 <= k < r.read ==> wave.ensures(
                    (rendered_frames(
                        old(self).elapsed() as int,
                        old(buffer)@.len(),
                        format.channels as nat,
                    )[k] as u64,),
                    #[trigger] final(buffer)@[k],
                ),
            forall|k: int|
                0 <= k < r.read ==> #[trigger] final(buffer)@[k] == final(buffer)@[frame_base(
                    k,
                    format.channels as int,
                )],
            forall|k: int|
                r.read <= k < old(buffer)@.len() ==> #[trigger] final(buffer)@[k] == old(
                    buffer,
                )@[k],
    {
        let ghost old_buf = buffer@;
        let ghost start = self.frame as int;
        let channels = format.channels as usize;
        let ghost ch = channels as int;
        let len = buffer.len();
        let frames = format.frames(len);
        let mut i: usize = 0;
        while i < frames
            invariant
                buffer@.len() == old_buf.len(),
                old_buf.len() == len,
                channels >= 1,
                ch == channels,
                frames * ch <= old_buf.len(),
                i <= frames,
                self.frame == start,
                start + old_buf.len() <= u64::MAX,
                forall|n: u64| wave.requires((n,)),
                forall|k: int|
                    0 <= k < i * ch ==> wave.ensures(
                        ((start + k / ch) as u64,),
                        #[trigger] buffer@[k],
                    ),
                forall|k: int|
                    0 <= k < i * ch ==> #[trigger] buffer@[k] == buffer@[frame_base(k, ch)],
                forall|k: int| i * ch <= k < old_buf.len() ==> #[trigger] buffer@[k] == old_buf[k],
            decreases frames - i,
        {
            proof {
                lemma_mul_inequality(i as int + 1, frames as int, ch);
                lemma_mul_is_distributive_add(ch, i as int, 1);
                assert((i as int + 1) * ch == i * ch + ch) by (nonlinear_arith);
                assert(i * ch + ch <= old_buf.len());
                assert(i <= i * ch) by (nonlinear_arith)
                    requires
                        ch >= 1,
                ;
            }
            let ghost prev = buffer@;
            let value = wave(self.frame + i as u64);
            let base = i * channels;
            let mut c: usize = 0;
            while c < channels
                invariant
                    buffer@.len() == old_buf.len(),
                    ch == channels,
                    channels >= 1,
                    base == i * ch,
                    base + ch <= old_buf.len(),
                    i < frames,
                    c <= channels,
                    wave.ensures(((start + i) as u64,), value),
                    prev.len() == old_buf.len(),
                    forall|k: int| 0 <= k < base ==> #[trigger] buffer@[k] == prev[k],
                    forall|k: int| base <= k < base + c ==> #[trigger] buffer@[k] == value,
                    forall|k: int|
                        base + c <= k < old_buf.len() ==> #[trigger] buffer@[k] == old_buf[k],
                decreases channels - c,
            {
                buffer[base + c] = value;
                c += 1;
            }
            proof {
                assert forall|k: int| 0 <= k < (i + 1) * ch implies wave.ensures(
                    ((start + k / ch) as u64,),
                    #[trigger] buffer@[k],
                ) && buffer@[k] == buffer@[frame_base(k, ch)] by {
                    if k >= base {
                        lemma_in_frame(i as int, k - base, ch);
                    } else {
                        lemma_frame_base_bound(k, ch);
                        assert(buffer@[k] == prev[k]);
                        assert(buffer@[frame_base(k, ch)] == prev[frame_base(k, ch)]);
                    }
                }
            }
            i += 1;
        }
        self.frame = self.frame + frames as u64;
        let read = frames * channels;
        proof {
            assert forall|k: int| 0 <= k < read implies wave.ensures(
                (rendered_frames(start, old_buf.len(), ch as nat)[k] as u64,),
                #[trigger] buffer@[k],
            ) by {
                assert(rendered_frames(start, old_buf.len(), ch as nat)[k] == start + k / ch);
            }
        }
        ReadResult::good(read)
    }
}

} // verus!
