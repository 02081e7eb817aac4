use vstd::prelude::*;

use crate::consts::{FFT_SIZE, OVERLAP};

verus! {

/// The samples of channel `channel` among `channels` interleaved ones, in
/// order, for the first `n` entries of `data`.
pub open spec fn channel_samples(data: Seq<i16>, channel: int, channels: int, n: int) -> Seq<i16>
    decreases n,
{
    if n <= 0 {
        seq![]
    } else if (n - 1) % channels == channel {
        channel_samples(data, channel, channels, n - 1).push(data[n - 1])
    } else {
        channel_samples(data, channel, channels, n - 1)
    }
}

/// The growing sample buffer of one channel and the start of the next
/// analysis window.
pub struct ChannelBuffer {
    samples: Vec<i16>,
    ptr: usize,
}

impl View for ChannelBuffer {
    type V = (Seq<i16>, nat);

    closed spec fn view(&self) -> (Seq<i16>, nat) {
        (self.samples@, self.ptr as nat)
    }
}

impl ChannelBuffer {
    /// The read position is a whole number of hops and never passes the end.
    pub open spec fn wf(&self) -> bool {
        &&& self@.1 % (OVERLAP as nat) == 0
        &&& self@.1 <= self@.0.len()
    }

    /// An empty buffer, read from its start.
    pub fn new() -> (r: ChannelBuffer)
        ensures
            r.wf(),
            r@ == (Seq::<i16>::empty(), 0nat),
    {
        ChannelBuffer { samples: Vec::new(), ptr: 0 }
    }

    /// Appends the samples of one channel of an interleaved frame.
    pub fn push_channel(&mut self, data: &[i16], channel: usize, channels: usize)
        requires
            old(self).wf(),
            channel < channels,
        ensures
            final(self).wf(),
            final(self)@.0 == old(self)@.0 + channel_samples(
                data@,
                channel as int,
                channels as int,
                data@.len() as int,
            ),
            final(self)@.1 == old(self)@.1,
    {
        let ghost start = self.samples@;
        let mut i: usize = 0;
        while i < data.len()
            invariant
                i <= data@.len(),
                channel < channels,
                self.ptr == old(self).ptr,
                self.ptr <= start.len(),
                self.samples@ == start + channel_samples(data@, channel as int, channels as int, i as int),
            decreases data.len() - i,
        {
            if i % channels == channel {
                self.samples.push(data[i]);
            }
            proof {
                assert(self.samples@ =~= start + channel_samples(
                    data@,
                    channel as int,
                    channels as int,
                    i + 1,
                ));
            }
            i = i + 1;
        }
    }

    /// When more than a full window lies past the read position, returns the
    /// window's start and advances the position by one hop.
    pub fn next_window(&mut self) -> (r: Option<usize>)
        requires
            old(self).wf(),
        ensures
            final(self).wf(),
            final(self)@.0 == old(self)@.0,
            old(self)@.0.len() - old(self)@.1 > FFT_SIZE ==> r == Some(old(self)@.1 as usize)
                && final(self)@.1 == old(self)@.1 + OVERLAP,
            old(self)@.0.len() - old(self)@.1 <= FFT_SIZE ==> r is None && final(self)@ == old(
                self,
            )@,
    {
        if self.samples.len() - self.ptr > FFT_SIZE {
            let start = self.ptr;
            self.ptr = self.ptr + OVERLAP;
            Some(start)
        } else {
            None
        }
    }

    /// All samples received so far.
    pub fn samples(&self) -> (r: &[i16])
        ensures
            r@ == self@.0,
    {
        self.samples.as_slice()
    }

    /// Start of the next analysis window.
    pub fn position(&self) -> (r: usize)
        ensures
            r == self@.1,
    {
        self.ptr
    }
}

/// Number of analysis windows in a spectrogram of `len` magnitudes.
pub fn timesteps(len: usize) -> (r: usize)
    ensures
        r == len / OVERLAP,
{
    len / OVERLAP
}

} // verus!
