use vstd::prelude::*;

use crate::stream::AudioFormat;

verus! {

/// Nanoseconds in one second.
pub const NANOS_PER_SEC: u64 = 1_000_000_000;

/// Frames that `delay_nanos` of audio takes at `sample_rate`, rounded up.
pub open spec fn delay_frames(sample_rate: nat, delay_nanos: nat) -> nat {
    ((sample_rate * delay_nanos + (NANOS_PER_SEC - 1)) / (NANOS_PER_SEC as int)) as nat
}

/// Samples that an echo of `delay_nanos` holds for a stream of `format`:
/// the delay in whole frames, rounded up, times the channel count.
pub open spec fn delay_line_len(format: AudioFormat, delay_nanos: nat) -> nat {
    delay_frames(format.sample_rate as nat, delay_nanos) * (format.channels as nat)
}

/// The length of the delay ring for `delay_nanos` at `format`, or `None`
/// where that many samples cannot be indexed on this machine.
pub fn ring_len(format: AudioFormat, delay_nanos: u64) -> (r: Option<usize>)
    ensures
        r is Some <==> delay_line_len(format, delay_nanos as nat) <= usize::MAX,
        r matches Some(n) ==> n == delay_line_len(format, delay_nanos as nat),
{
    let rate = format.sample_rate as u128;
    let nanos = delay_nanos as u128;
    assert(rate * nanos <= 0xffff_ffffu128 * 0xffff_ffff_ffff_ffffu128) by (nonlinear_arith)
        requires
            rate <= 0xffff_ffffu128,
            nanos <= 0xffff_ffff_ffff_ffffu128,
    ;
    let product: u128 = rate * nanos;
    let frames: u128 = (product + (NANOS_PER_SEC - 1) as u128) / (NANOS_PER_SEC as u128);
    assert(frames <= product + 999_999_999) by (nonlinear_arith)
        requires
            frames == (product + 999_999_999) / 1_000_000_000,
            product >= 0,
    ;
    let channels = format.channels as u128;
    assert(frames * channels <= 0x1_0000_0000_0000_0000_0000u128 * 255) by (nonlinear_arith)
        requires
            frames <= 0x1_0000_0000_0000_0000_0000u128,
            channels <= 255,
    ;
    let total: u128 = frames * channels;
    if total <= usize::MAX as u128 {
        Some(total as usize)
    } else {
        None
    }
}

/// `ring` read from index `cursor` on, wrapping once at its end: for a
/// cursor in `[0, ring.len()]` the oldest entry comes first.
pub open spec fn rotated<T>(ring: Seq<T>, cursor: int) -> Seq<T> {
    Seq::new(
        ring.len(),
        |i: int|
            if cursor + i < ring.len() {
                ring[cursor + i]
            } else {
                ring[cursor + i - ring.len()]
            },
    )
}

/// Entry `k` of the signal as an echo sees it: the held history `h`
/// (oldest first) followed by the outputs `y`.
pub open spec fn echo_history<T>(h: Seq<T>, y: Seq<T>, k: int) -> T {
    if k < h.len() {
        h[k]
    } else {
        y[k - h.len()]
    }
}

/// Output `k` is `mix` of the entry one delay earlier and input `k`.
pub open spec fn echo_step<T, F: Fn(T, T) -> T>(
    mix: F,
    h: Seq<T>,
    x: Seq<T>,
    y: Seq<T>,
    k: int,
) -> bool {
    mix.ensures((echo_history(h, y, k), x[k]), y[k])
}

/// The first `n` outputs `y` are the echo of inputs `x` over the held
/// history `h`: each is `mix` of the entry one delay (`h.len()`) earlier
/// and of the input at the same index.
pub open spec fn echoes<T, F: Fn(T, T) -> T>(
    mix: F,
    h: Seq<T>,
    x: Seq<T>,
    y: Seq<T>,
    n: int,
) -> bool {
    forall|k: int| 0 <= k < n ==> #[trigger] echo_step(mix, h, x, y, k)
}

/// The history held after `n` outputs `y` over the history `h`: the last
/// `h.len()` entries of `h` followed by `y[..n]`, oldest first.
pub open spec fn history_after<T>(h: Seq<T>, y: Seq<T>, n: int) -> Seq<T> {
    Seq::new(h.len(), |j: int| echo_history(h, y, n + j))
}

/// What holds after the first `n` inputs of `x` went through a delay line
/// that held `h`: the outputs so far, the untouched rest of the buffer, and
/// the ring, read from `cursor`, holding the history that follows.
spec fn mixed_upto<T, F: Fn(T, T) -> T>(
    mix: F,
    h: Seq<T>,
    x: Seq<T>,
    y: Seq<T>,
    ring: Seq<T>,
    cursor: int,
    n: int,
) -> bool {
    &&& y.len() == x.len()
    &&& ring.len() == h.len()
    &&& 0 <= n <= x.len()
    &&& 0 <= cursor <= ring.len()
    &&& echoes(mix, h, x, y, n)
    &&& forall|k: int| n <= k < x.len() ==> y[k] == x[k]
    &&& rotated(ring, cursor) == history_after(h, y, n)
}

/// Mixing one more sample into the slot under the cursor keeps
/// `mixed_upto`, one step further on.
proof fn lemma_mix_one<T, F: Fn(T, T) -> T>(
    mix: F,
    h: Seq<T>,
    x: Seq<T>,
    y: Seq<T>,
    ring: Seq<T>,
    cursor: int,
    n: int,
    v: T,
)
    requires
        mixed_upto(mix, h, x, y, ring, cursor, n),
        cursor < ring.len(),
        n < x.len(),
        mix.ensures((ring[cursor], x[n]), v),
    ensures
        mixed_upto(mix, h, x, y.update(n, v), ring.update(cursor, v), cursor + 1, n + 1),
{
    let d = h.len() as int;
    let y2 = y.update(n, v);
    let ring2 = ring.update(cursor, v);
    assert(rotated(ring, cursor)[0] == ring[cursor]);
    assert(history_after(h, y, n)[0] == echo_history(h, y, n));
    assert(echo_history(h, y2, n) == echo_history(h, y, n));
    assert(echo_step(mix, h, x, y2, n));
    assert forall|k: int| 0 <= k < n + 1 implies #[trigger] echo_step(mix, h, x, y2, k) by {
        if k < n {
            assert(echo_step(mix, h, x, y, k));
            assert(echo_history(h, y2, k) == echo_history(h, y, k));
        }
    }
    assert forall|i: int| 0 <= i < d implies #[trigger] rotated(ring2, cursor + 1)[i]
        == history_after(h, y2, n + 1)[i] by {
        if i < d - 1 {
            assert(rotated(ring, cursor)[i + 1] == history_after(h, y, n)[i + 1]);
            assert(echo_history(h, y2, n + 1 + i) == echo_history(h, y, n + 1 + i));
        } else {
            assert(echo_history(h, y2, n + d) == v);
        }
    }
    assert(rotated(ring2, cursor + 1) =~= history_after(h, y2, n + 1));
}

/// Moving a cursor `count` slots on, without passing the ring's end, is
/// adding `count` to the samples processed, modulo the ring's length.
proof fn lemma_cursor_advance(n: int, len: int, cursor: int, count: int)
    requires
        0 <= n,
        0 < len,
        cursor == n % len,
        0 <= count,
        cursor + count <= len,
    ensures
        (n + count) % len == (if cursor + count == len {
            0
        } else {
            cursor + count
        }),
{
    let q = n / len;
    vstd::arithmetic::div_mod::lemma_fundamental_div_mod(n, len);
    if cursor + count == len {
        assert(n + count == (q + 1) * len + 0) by (nonlinear_arith)
            requires
                n == len * q + cursor,
                cursor + count == len,
        ;
        vstd::arithmetic::div_mod::lemma_fundamental_div_mod_converse(n + count, len, q + 1, 0);
    } else {
        assert(n + count == q * len + (cursor + count)) by (nonlinear_arith)
            requires
                n == len * q + cursor,
        ;
        vstd::arithmetic::div_mod::lemma_fundamental_div_mod_converse(
            n + count,
            len,
            q,
            cursor + count,
        );
    }
}

/// A delay line whose cursor stands at its end reads as one whose cursor
/// stands at its start.
proof fn lemma_rotated_wrap<T>(ring: Seq<T>)
    ensures
        rotated(ring, ring.len() as int) == rotated(ring, 0),
{
    assert(rotated(ring, ring.len() as int) =~= rotated(ring, 0));
}

/// An echo of silence is silent: where the held history and the input are
/// all `z`, and `mix` gives `z` back for `z` and `z`, every output is `z`
/// and so is the history left behind.
pub proof fn lemma_echo_of_silence<T, F: Fn(T, T) -> T>(
    mix: F,
    h: Seq<T>,
    x: Seq<T>,
    y: Seq<T>,
    n: int,
    z: T,
)
    requires
        0 < h.len(),
        0 <= n <= x.len(),
        n <= y.len(),
        echoes(mix, h, x, y, n),
        forall|k: int| 0 <= k < h.len() ==> h[k] == z,
        forall|k: int| 0 <= k < n ==> x[k] == z,
        forall|r: T| mix.ensures((z, z), r) ==> r == z,
    ensures
        forall|k: int| 0 <= k < n ==> y[k] == z,
        forall|j: int| 0 <= j < h.len() ==> history_after(h, y, n)[j] == z,
    decreases n,
{
    if n > 0 {
        lemma_echo_of_silence(mix, h, x, y, n - 1, z);
        assert(echo_step(mix, h, x, y, n - 1));
    }
}

/// An impulse comes back once every delay: with a silent history, input
/// `x[0]` followed by `z`, and `mix` giving `z` for `z` and `z`, output `k`
/// is `z` unless `k` is a multiple of the line's length `d`; output 0 is
/// `mix(z, x[0])`, and each later multiple of `d` is `mix` of the repeat
/// before it and `z`. With `mix(b, s) = b * decay + s` the `n`-th repeat is
/// the impulse times `decay` to the `n`.
pub proof fn lemma_echo_of_impulse<T, F: Fn(T, T) -> T>(
    mix: F,
    h: Seq<T>,
    x: Seq<T>,
    y: Seq<T>,
    n: int,
    z: T,
)
    requires
        0 < h.len(),
        0 <= n <= x.len(),
        n <= y.len(),
        echoes(mix, h, x, y, n),
        forall|k: int| 0 <= k < h.len() ==> h[k] == z,
        forall|k: int| 0 < k < n ==> x[k] == z,
        forall|r: T| mix.ensures((z, z), r) ==> r == z,
    ensures
        forall|k: int| 0 <= k < n && k % (h.len() as int) != 0 ==> y[k] == z,
        forall|k: int|
            h.len() <= k < n && k % (h.len() as int) == 0 ==> #[trigger] mix.ensures((y[k - h.len()], z), y[k]),
        n > 0 ==> mix.ensures((z, x[0]), y[0]),
    decreases n,
{
    if n > 0 {
        let d = h.len() as int;
        let k = n - 1;
        lemma_echo_of_impulse(mix, h, x, y, k, z);
        assert(echo_step(mix, h, x, y, k));
        if k < d {
            vstd::arithmetic::div_mod::lemma_small_mod(k as nat, d as nat);
        } else {
            vstd::arithmetic::div_mod::lemma_mod_sub_multiples_vanish(k, d);
            assert(-d + k == k - d);
        }
    }
}

/// A circular delay line: the last `len()` samples that went through it,
/// which an echo mixes back into the signal one full length later.
///
/// Its view is the held history, oldest first.
pub struct DelayLine<T> {
    ring: Vec<T>,
    position: usize,
}

impl<T> View for DelayLine<T> {
    type V = Seq<T>;

    open spec fn view(&self) -> Seq<T> {
        rotated(self.slots(), self.cursor())
    }
}

impl<T> DelayLine<T> {
    /// The ring as stored.
    pub closed spec fn slots(&self) -> Seq<T> {
        self.ring@
    }

    /// The slot that holds the oldest sample, the next one to be mixed.
    pub closed spec fn cursor(&self) -> int {
        self.position as int
    }

    pub open spec fn wf(&self) -> bool {
        if self.slots().len() == 0 {
            self.cursor() == 0
        } else {
            0 <= self.cursor() < self.slots().len()
        }
    }

}

impl<T: Copy> DelayLine<T> {
    /// An empty delay line.
    pub fn new() -> (r: Self)
        ensures
            r.wf(),
            r.slots().len() == 0,
            r@.len() == 0,
    {
        DelayLine { ring: Vec::new(), position: 0 }
    }

    /// Number of samples held.
    pub fn len(&self) -> (r: usize)
        ensures
            r == self.slots().len(),
            r == self@.len(),
    {
        self.ring.len()
    }

    /// The slot that the next sample is mixed with.
    pub fn position(&self) -> (r: usize)
        ensures
            r == self.cursor(),
    {
        self.position
    }

    /// Sample `i` of the ring as stored.
    pub fn slot(&self, i: usize) -> (r: T)
        requires
            i < self.slots().len(),
        ensures
            r == self.slots()[i as int],
    {
        self.ring[i]
    }

    /// Makes the ring `len` samples long: it keeps its first `len` slots when
    /// it shrinks and appends `fill` when it grows. The cursor stays where it
    /// is unless it falls off the end, and then goes back to the start.
    pub fn resize(&mut self, len: usize, fill: T)
        requires
            old(self).wf(),
        ensures
            final(self).wf(),
            final(self).slots() == (if len <= old(self).slots().len() {
                old(self).slots().take(len as int)
            } else {
                old(self).slots() + Seq::new((len - old(self).slots().len()) as nat, |i: int| fill)
            }),
            final(self).cursor() == (if old(self).cursor() < len {
                old(self).cursor()
            } else {
                0
            }),
    {
        let ghost before = self.ring@;
        if len <= self.ring.len() {
            self.ring.truncate(len);
        } else {
            while self.ring.len() < len
                invariant
                    before.len() <= self.ring@.len() <= len,
                    self.position == old(self).position,
                    self.ring@ == before + Seq::new(
                        (self.ring@.len() - before.len()) as nat,
                        |i: int| fill,
                    ),
                decreases len - self.ring@.len(),
            {
                self.ring.push(fill);
            }
        }
        if self.position >= len {
            self.position = 0;
        }
        proof {
            if len > before.len() {
                assert(self.ring@ == before + Seq::new((len - before.len()) as nat, |i: int| fill));
            }
        }
    }

    /// Mixes the delay line into the first `written` samples, in place.
    ///
    /// With a line of length `d > 0`, output `k` is `mix(e, x[k])` where `e`
    /// is the entry `d` samples earlier in the signal: a held sample for
    /// `k < d`, else output `k - d`. The line then holds the last `d`
    /// entries. Samples from `written` on are left as they are. An empty
    /// line leaves everything unchanged.
    pub fn process<F: Fn(T, T) -> T>(&mut self, samples: &mut [T], written: usize, mix: F)
        requires
            old(self).wf(),
            written <= old(samples)@.len(),
            forall|b: T, s: T| mix.requires((b, s)),
        ensures
            final(self).wf(),
            final(self).slots().len() == old(self).slots().len(),
            final(samples)@.len() == old(samples)@.len(),
            forall|k: int|
                written <= k < old(samples)@.len() ==> final(samples)@[k] == old(samples)@[k],
            old(self)@.len() == 0 ==> final(samples)@ == old(samples)@ && final(self)@
                == old(self)@,
            old(self)@.len() > 0 ==> echoes(mix, old(self)@, old(samples)@, final(samples)@, written as int),
            old(self)@.len() > 0 ==> final(self).cursor() == (old(self).cursor() + written) % (old(
                self,
            )@.len() as int),
            old(self)@.len() > 0 ==> final(self)@ == history_after(
                old(self)@,
                final(samples)@,
                written as int,
            ),
    {
        let len = self.ring.len();
        if len == 0 {
            return;
        }
        let ghost h = self@;
        let ghost x = samples@;
        let ghost p = self.position as int;
        assert(history_after(h, samples@, 0) =~= h);
        proof {
            vstd::arithmetic::div_mod::lemma_small_mod(p as nat, len as nat);
        }
        let mut i: usize = 0;
        while i < written
            invariant
                self.ring@.len() == len,
                0 < len,
                self.position < len,
                i <= written,
                written <= x.len(),
                h.len() == len,
                0 <= p,
                self.position as int == (p + i) % (len as int),
                forall|b: T, s: T| mix.requires((b, s)),
                mixed_upto(mix, h, x, samples@, self.ring@, self.position as int, i as int),
            decreases written - i,
        {
            let room = len - self.position;
            let count = if room < written - i {
                room
            } else {
                written - i
            };
            let mut j: usize = 0;
            while j < count
                invariant
                    self.ring@.len() == len,
                    self.position + count <= len,
                    self.position as int == (p + i) % (len as int),
                    i + count <= written,
                    written <= x.len(),
                    h.len() == len,
                    j <= count,
                    forall|b: T, s: T| mix.requires((b, s)),
                    mixed_upto(
                        mix,
                        h,
                        x,
                        samples@,
                        self.ring@,
                        (self.position + j) as int,
                        (i + j) as int,
                    ),
                decreases count - j,
            {
                let slot = self.position + j;
                let v = mix(self.ring[slot], samples[i + j]);
                proof {
                    lemma_mix_one(
                        mix,
                        h,
                        x,
                        samples@,
                        self.ring@,
                        slot as int,
                        (i + j) as int,
                        v,
                    );
                }
                self.ring.set(slot, v);
                samples[i + j] = v;
                j += 1;
            }
            proof {
                lemma_cursor_advance(p + i, len as int, self.position as int, count as int);
            }
            i += count;
            if self.position + count == len {
                proof {
                    lemma_rotated_wrap(self.ring@);
                }
                self.position = 0;
            } else {
                self.position = self.position + count;
            }
        }
        assert(mixed_upto(mix, h, x, samples@, self.ring@, self.position as int, written as int));
        assert(self@ == rotated(self.ring@, self.position as int));
    }
}

} // verus!
