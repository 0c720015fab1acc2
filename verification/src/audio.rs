//! The tone that the game plays: a square wave.
use vstd::prelude::*;

verus! {

/// A square wave and the samples that were made of it last.
#[derive(Debug)]
pub struct Sound {
    pub channels: u8,
    /// How many samples were made so far.
    pub running_sample: usize,
    pub samples_per_second: u32,
    pub tone_hz: u32,
    pub volume: i16,
    pub data: Vec<i16>,
}

impl Sound {
    /// Whether the wave can be made: the tone is not above the sample rate,
    /// and the volume has a negative.
    pub open spec fn wf(&self) -> bool {
        &&& 0 < self.tone_hz <= self.samples_per_second
        &&& self.volume > i16::MIN
    }

    /// Samples in half a wave.
    pub open spec fn period(&self) -> int {
        self.samples_per_second as int / self.tone_hz as int
    }

    /// The value of the sample `n`: high in every other half wave, low in
    /// the half waves between.
    pub open spec fn sample(&self, n: int) -> i16 {
        if (n / self.period()) % 2 == 0 {
            self.volume
        } else {
            (-self.volume) as i16
        }
    }

    /// The sound that the game plays: 256 Hz on two channels.
    pub fn new() -> (r: Self)
        ensures
            r.wf(),
            r.channels == 2,
            r.running_sample == 0,
            r.samples_per_second == 48_000,
            r.tone_hz == 256,
            r.volume == 3_000,
            r.data@ == Seq::<i16>::empty(),
    {
        Sound {
            channels: 2,
            running_sample: 0,
            samples_per_second: 48_000,
            tone_hz: 256,
            volume: 3_000,
            data: Vec::new(),
        }
    }

    /// Makes the next `bytes_to_write` samples of the wave, each one once
    /// for every channel, in place of the samples that were there.
    pub fn gen_wave(&mut self, bytes_to_write: u32)
        requires
            old(self).wf(),
            old(self).running_sample + bytes_to_write <= usize::MAX,
        ensures
            final(self).wf(),
            final(self).channels == old(self).channels,
            final(self).samples_per_second == old(self).samples_per_second,
            final(self).tone_hz == old(self).tone_hz,
            final(self).volume == old(self).volume,
            final(self).running_sample == old(self).running_sample + bytes_to_write,
            final(self).data@.len() == bytes_to_write * old(self).channels,
            forall|k: int|
                0 <= k < final(self).data@.len() ==> #[trigger] final(self).data@[k]
                    == old(self).sample(
                    old(self).running_sample + k / (old(self).channels as int),
                ),
    {
        let period = self.samples_per_second / self.tone_hz;
        assert(period >= 1) by (nonlinear_arith)
            requires
                period == self.samples_per_second as int / self.tone_hz as int,
                0 < self.tone_hz <= self.samples_per_second,
        ;
        self.data.clear();
        let mut i: u32 = 0;
        assert(0 * self.channels == 0);
        while i < bytes_to_write
            invariant
                i <= bytes_to_write,
                self.wf(),
                period == old(self).period(),
                period >= 1,
                self.channels == old(self).channels,
                self.samples_per_second == old(self).samples_per_second,
                self.tone_hz == old(self).tone_hz,
                self.volume == old(self).volume,
                self.running_sample == old(self).running_sample + i,
                old(self).running_sample + bytes_to_write <= usize::MAX,
                self.data@.len() == i * self.channels,
                forall|k: int|
                    0 <= k < self.data@.len() ==> #[trigger] self.data@[k] == old(self).sample(
                        old(self).running_sample + k / (self.channels as int),
                    ),
            decreases bytes_to_write - i,
        {
            let val = if (self.running_sample / period as usize) % 2 == 0 {
                self.volume
            } else {
                -self.volume
            };
            assert(val == old(self).sample(old(self).running_sample + i));
            let mut c: u8 = 0;
            while c < self.channels
                invariant
                    c <= self.channels,
                    i < bytes_to_write,
                    self.wf(),
                    self.channels == old(self).channels,
                    self.samples_per_second == old(self).samples_per_second,
                    self.tone_hz == old(self).tone_hz,
                    self.volume == old(self).volume,
                    self.running_sample == old(self).running_sample + i,
                    val == old(self).sample(old(self).running_sample + i),
                    self.data@.len() == i * self.channels + c,
                    forall|k: int|
                        0 <= k < self.data@.len() ==> #[trigger] self.data@[k] == old(self).sample(
                            old(self).running_sample + k / (self.channels as int),
                        ),
                decreases self.channels - c,
            {
                let ghost before = self.data@;
                self.data.push(val);
                proof {
                    let last = i * self.channels + c;
                    assert(last / (self.channels as int) == i) by (nonlinear_arith)
                        requires
                            last == i * self.channels + c,
                            0 <= c < self.channels,
                            i >= 0,
                    ;
                    assert forall|k: int| 0 <= k < self.data@.len() implies #[trigger] self.data@[k]
                        == old(self).sample(
                        old(self).running_sample + k / (self.channels as int),
                    ) by {
                        if k < before.len() {
                            assert(self.data@[k] == before[k]);
                        }
                    }
                }
                c += 1;
            }
            proof {
                assert((i + 1) * self.channels == i * self.channels + self.channels)
                    by (nonlinear_arith);
            }
            self.running_sample += 1;
            i += 1;
        }
    }

    /// How many samples for each channel a queue of `queue_bytes` bytes
    /// holds.
    pub fn samples_in_queue(&self, queue_bytes: u32) -> (r: u32)
        requires
            self.channels > 0,
        ensures
            r == queue_bytes as int / 2 / self.channels as int,
    {
        queue_bytes / 2 / self.channels as u32
    }

    /// Makes the samples that a queue of `queue_bytes` bytes lacks to hold
    /// a second of sound, and returns whether there are any to be queued.
    /// A queue that holds a second or more is left alone.
    pub fn refill(&mut self, queue_bytes: u32) -> (r: bool)
        requires
            old(self).wf(),
            old(self).channels > 0,
            old(self).running_sample + old(self).samples_per_second <= usize::MAX,
        ensures
            final(self).wf(),
            final(self).channels == old(self).channels,
            final(self).samples_per_second == old(self).samples_per_second,
            final(self).tone_hz == old(self).tone_hz,
            final(self).volume == old(self).volume,
            r == ((queue_bytes as int / 2 / old(self).channels as int) < old(self).samples_per_second),
            !r ==> *final(self) == *old(self),
            r ==> {
                let missing = old(self).samples_per_second - queue_bytes as int / 2 / old(self).channels as int;
                &&& final(self).running_sample == old(self).running_sample + missing
                &&& final(self).data@.len() == missing * old(self).channels
                &&& forall|k: int|
                    0 <= k < final(self).data@.len() ==> #[trigger] final(self).data@[k] == old(
                        self).sample(old(self).running_sample + k / (old(self).channels as int))
            },
    {
        let queued = self.samples_in_queue(queue_bytes);
        if queued < self.samples_per_second {
            let bytes_to_write = self.samples_per_second - queued;
            self.gen_wave(bytes_to_write);
            true
        } else {
            false
        }
    }
}

} // verus!
