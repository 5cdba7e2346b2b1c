//! Audio capture, buffering, and stream format handling.
use crate::arith::ONE;
use crate::audio::format::{channel_layout, layout_name, layout_name_of, layout_of, label_of};
use crate::audio::format::{ChannelInfo, SampleFormat};
use crate::text::{digits, push_decimal};
use vstd::prelude::*;
use vstd::string::*;

pub mod device;
pub mod file_input;
pub mod format;
pub mod ring_buffer;

verus! {

/// The shape of a live stream, as negotiated with the endpoint.
#[derive(Clone, Copy, Debug, PartialEq, Eq, Structural)]
pub struct StreamFormat {
    pub sample_rate: u32,
    pub channels: usize,
    /// Which speakers the channels feed; 0 when the stream declares none.
    pub channel_mask: u32,
    pub sample_format: SampleFormat,
}

/// How many channels carry a bearing.
pub open spec fn bearings(layout: Seq<ChannelInfo>) -> int
    decreases layout.len(),
{
    if layout.len() == 0 {
        0
    } else {
        bearings(layout.drop_last()) + if layout.last().azimuth_deg is Some {
            1int
        } else {
            0
        }
    }
}

impl StreamFormat {
    /// Frames that a time of millionths of a second takes, rounded up.
    pub open spec fn frames_of(&self, seconds: int) -> int {
        if seconds <= 0 {
            0
        } else {
            (seconds * self.sample_rate + ONE - 1) / (ONE as int)
        }
    }

    pub open spec fn description(&self) -> Seq<char> {
        digits(self.sample_rate as int) + " Hz · "@ + digits(self.channels as int) + " ch ("@
            + layout_name_of(self.channel_mask as int, self.channels as int) + ") · "@ + label_of(
            self.sample_format,
        )
    }

    pub fn new(
        sample_rate: u32,
        channels: usize,
        channel_mask: u32,
        sample_format: SampleFormat,
    ) -> (r: Self)
        ensures
            r == (StreamFormat { sample_rate, channels, channel_mask, sample_format }),
    {
        StreamFormat { sample_rate, channels, channel_mask, sample_format }
    }

    pub fn layout(&self) -> (r: Vec<ChannelInfo>)
        ensures
            r@ == layout_of(self.channel_mask as int, self.channels as int),
    {
        channel_layout(self.channel_mask, self.channels)
    }

    pub fn layout_name(&self) -> (r: &'static str)
        ensures
            r@ == layout_name_of(self.channel_mask as int, self.channels as int),
    {
        layout_name(self.channel_mask, self.channels)
    }

    /// How many channels carry a usable bearing. Below two, direction finding is
    /// impossible.
    pub fn directional_channels(&self) -> (r: usize)
        ensures
            r == bearings(layout_of(self.channel_mask as int, self.channels as int)),
    {
        let layout = self.layout();
        let mut count: usize = 0;
        let mut i: usize = 0;
        assert(layout@.take(0) =~= Seq::empty());
        while i < layout.len()
            invariant
                i <= layout.len(),
                count <= i,
                count == bearings(layout@.take(i as int)),
            decreases layout.len() - i,
        {
            assert(layout@.take(i + 1).drop_last() =~= layout@.take(i as int));
            if layout[i].azimuth_deg.is_some() {
                count = count + 1;
            }
            i = i + 1;
        }
        assert(layout@.take(layout.len() as int) =~= layout@);
        count
    }

    /// Frames that a time of millionths of a second takes, rounded up.
    pub fn seconds_to_frames(&self, seconds: i64) -> (r: u128)
        ensures
            r == self.frames_of(seconds as int),
    {
        if seconds <= 0 {
            return 0;
        }
        proof {
            assert(0 <= seconds * self.sample_rate <= 0x8000_0000_0000_0000 * 0x1_0000_0000)
                by (nonlinear_arith)
                requires
                    0 <= seconds <= 0x8000_0000_0000_0000,
                    0 <= self.sample_rate <= 0x1_0000_0000,
            ;
        }
        (seconds as u128 * self.sample_rate as u128 + 999_999) / 1_000_000
    }

    /// The time that frames take, in millionths of a second, rounded down.
    pub fn frames_to_seconds(&self, frames: u64) -> (r: u128)
        requires
            self.sample_rate > 0,
        ensures
            r == frames * ONE / (self.sample_rate as int),
    {
        frames as u128 * 1_000_000 / self.sample_rate as u128
    }

    /// One line for the header and the log.
    pub fn describe(&self) -> (r: String)
        ensures
            r@ == self.description(),
    {
        let mut s: String = String::new();
        push_decimal(&mut s, self.sample_rate as u64);
        s.append(" Hz · ");
        push_decimal(&mut s, self.channels as u64);
        s.append(" ch (");
        s.append(self.layout_name());
        s.append(") · ");
        s.append(self.sample_format.label());
        assert(s@ =~= self.description());
        s
    }
}

} // verus!
