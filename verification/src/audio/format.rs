//! Which speaker each channel of a stream feeds, and where that speaker stands.
use vstd::prelude::*;

verus! {

pub const MASK_MONO: u32 = 0x4;

pub const MASK_STEREO: u32 = 0x3;

pub const MASK_5_1: u32 = 0x3f;

pub const MASK_7_1: u32 = 0x63f;

/// How a sample is coded.
#[derive(Clone, Copy, Debug, PartialEq, Eq, Structural)]
pub enum SampleFormat {
    F32,
    I16,
    I24,
    I32,
}

pub open spec fn label_of(f: SampleFormat) -> Seq<char> {
    match f {
        SampleFormat::F32 => "F32"@,
        SampleFormat::I16 => "I16"@,
        SampleFormat::I24 => "I24"@,
        SampleFormat::I32 => "I32"@,
    }
}

impl SampleFormat {
    pub fn label(self) -> (r: &'static str)
        ensures
            r@ == label_of(self),
    {
        match self {
            SampleFormat::F32 => "F32",
            SampleFormat::I16 => "I16",
            SampleFormat::I24 => "I24",
            SampleFormat::I32 => "I32",
        }
    }
}

/// One channel of a stream.
#[derive(Clone, Copy, Debug, PartialEq, Eq, Structural)]
pub struct ChannelInfo {
    /// Where its speaker stands, in degrees from straight ahead, right of it positive;
    /// none where the channel has no bearing.
    pub azimuth_deg: Option<i32>,
}

/// The mask has side speakers, so that its back speakers stand further back.
pub open spec fn has_sides(mask: int) -> bool {
    mask / 0x200 % 2 == 1 || mask / 0x400 % 2 == 1
}

/// Where the speaker of a mask's bit stands. The low-frequency channel has no bearing,
/// and neither do the speakers overhead.
pub open spec fn bearing(bit: int, sides: bool) -> Option<i32> {
    if bit == 0 {
        Some(-30i32)
    } else if bit == 1 {
        Some(30i32)
    } else if bit == 2 {
        Some(0i32)
    } else if bit == 4 {
        Some(if sides {
            -135i32
        } else {
            -110i32
        })
    } else if bit == 5 {
        Some(if sides {
            135i32
        } else {
            110i32
        })
    } else if bit == 6 {
        Some(-15i32)
    } else if bit == 7 {
        Some(15i32)
    } else if bit == 8 {
        Some(180i32)
    } else if bit == 9 {
        Some(-90i32)
    } else if bit == 10 {
        Some(90i32)
    } else {
        None
    }
}

/// The speakers of the bits set in `mask`, lowest first, the lowest being bit `bit`.
pub open spec fn speakers(mask: int, bit: int, sides: bool) -> Seq<ChannelInfo>
    decreases mask,
{
    if mask <= 0 {
        Seq::empty()
    } else {
        let rest = speakers(mask / 2, bit + 1, sides);
        if mask % 2 == 1 {
            seq![ChannelInfo { azimuth_deg: bearing(bit, sides) }] + rest
        } else {
            rest
        }
    }
}

/// The mask of a stream: its own, or the usual one for its number of channels.
pub open spec fn effective_mask(mask: int, channels: int) -> int {
    if mask != 0 {
        mask
    } else if channels == 1 {
        MASK_MONO as int
    } else if channels == 2 {
        MASK_STEREO as int
    } else if channels == 6 {
        MASK_5_1 as int
    } else if channels == 8 {
        MASK_7_1 as int
    } else {
        0
    }
}

/// The channels of a stream, in order: they take the speakers of its mask in turn, and
/// any that are left over have no bearing.
pub open spec fn layout_of(mask: int, channels: int) -> Seq<ChannelInfo> {
    let m = effective_mask(mask, channels);
    let s = speakers(m, 0, has_sides(m));
    Seq::new(
        channels as nat,
        |i: int|
            if i < s.len() {
                s[i]
            } else {
                ChannelInfo { azimuth_deg: None }
            },
    )
}

pub open spec fn layout_name_of(mask: int, channels: int) -> Seq<char> {
    let m = effective_mask(mask, channels);
    if m == MASK_MONO {
        "mono"@
    } else if m == MASK_STEREO {
        "stereo"@
    } else if m == MASK_5_1 || m == 0x60f {
        "5.1"@
    } else if m == MASK_7_1 {
        "7.1"@
    } else {
        "custom"@
    }
}

fn effective(mask: u32, channels: usize) -> (r: u32)
    ensures
        r == effective_mask(mask as int, channels as int),
{
    if mask != 0 {
        mask
    } else if channels == 1 {
        MASK_MONO
    } else if channels == 2 {
        MASK_STEREO
    } else if channels == 6 {
        MASK_5_1
    } else if channels == 8 {
        MASK_7_1
    } else {
        0
    }
}

fn bearing_of(bit: u32, sides: bool) -> (r: Option<i32>)
    ensures
        r == bearing(bit as int, sides),
{
    if bit == 0 {
        Some(-30)
    } else if bit == 1 {
        Some(30)
    } else if bit == 2 {
        Some(0)
    } else if bit == 4 {
        Some(if sides {
            -135
        } else {
            -110
        })
    } else if bit == 5 {
        Some(if sides {
            135
        } else {
            110
        })
    } else if bit == 6 {
        Some(-15)
    } else if bit == 7 {
        Some(15)
    } else if bit == 8 {
        Some(180)
    } else if bit == 9 {
        Some(-90)
    } else if bit == 10 {
        Some(90)
    } else {
        None
    }
}

/// The channels of a stream, in order.
pub fn channel_layout(mask: u32, channels: usize) -> (r: Vec<ChannelInfo>)
    ensures
        r@ == layout_of(mask as int, channels as int),
{
    let whole: u32 = effective(mask, channels);
    let sides: bool = whole / 0x200 % 2 == 1 || whole / 0x400 % 2 == 1;
    let ghost all = speakers(whole as int, 0, has_sides(whole as int));
    let mut left: u32 = whole;
    let mut bit: u32 = 0;
    let mut found: Vec<ChannelInfo> = Vec::new();
    assert(found@ + all =~= all);
    while left > 0
        invariant
            sides == has_sides(whole as int),
            bit + left <= 0xffff_ffff,
            all == found@ + speakers(left as int, bit as int, sides),
        decreases left,
    {
        if left % 2 == 1 {
            let info = ChannelInfo { azimuth_deg: bearing_of(bit, sides) };
            let ghost rest = speakers(left as int / 2, bit + 1, sides);
            assert(found@ + (seq![info] + rest) =~= found@.push(info) + rest);
            found.push(info);
        }
        left = left / 2;
        bit = bit + 1;
    }
    assert(found@ =~= all);
    let mut r: Vec<ChannelInfo> = Vec::with_capacity(channels);
    let mut i: usize = 0;
    while i < channels
        invariant
            i <= channels,
            found@ == all,
            r.len() == i,
            forall|k: int|
                0 <= k < i ==> #[trigger] r[k] == if k < all.len() {
                    all[k]
                } else {
                    ChannelInfo { azimuth_deg: None }
                },
        decreases channels - i,
    {
        if i < found.len() {
            r.push(found[i]);
        } else {
            r.push(ChannelInfo { azimuth_deg: None });
        }
        i = i + 1;
    }
    assert(r@ =~= layout_of(mask as int, channels as int));
    r
}

pub fn layout_name(mask: u32, channels: usize) -> (r: &'static str)
    ensures
        r@ == layout_name_of(mask as int, channels as int),
{
    let m: u32 = effective(mask, channels);
    if m == MASK_MONO {
        "mono"
    } else if m == MASK_STEREO {
        "stereo"
    } else if m == MASK_5_1 || m == 0x60f {
        "5.1"
    } else if m == MASK_7_1 {
        "7.1"
    } else {
        "custom"
    }
}

/// Speakers stand in pairs: front, centre, back and side ones as far to the right as their
/// fellows to the left, whatever the layout. The middle ones stand on the axis, and the
/// low-frequency channel nowhere.
pub proof fn law_speakers_stand_in_pairs(sides: bool)
    ensures
        bearing(0, sides) == Some(-30i32),
        bearing(1, sides) == Some(30i32),
        bearing(2, sides) == Some(0i32),
        bearing(3, sides) is None,
        bearing(8, sides) == Some(180i32),
        forall|bit: int|
            #![trigger bearing(bit, sides)]
            (bit == 0 || bit == 4 || bit == 6) ==> bearing(bit, sides) is Some && bearing(
                bit + 1,
                sides,
            ) is Some && bearing(bit + 1, sides)->Some_0 == -bearing(bit, sides)->Some_0 && bearing(
                bit,
                sides,
            )->Some_0 < 0,
        bearing(9, sides) == Some(-90i32),
        bearing(10, sides) == Some(90i32),
        // Back speakers stand behind side ones where there are any.
        bearing(5, true) == Some(135i32),
        bearing(5, false) == Some(110i32),
{
}

/// A stream has a place for each of its channels, and those beyond its speakers have no bearing.
/// Two channels without a mask are left and right.
pub proof fn law_a_layout_has_a_place_for_each_channel(mask: int, channels: int)
    requires
        channels >= 0,
    ensures
        layout_of(mask, channels).len() == channels,
        layout_of(0, 2) == seq![
            ChannelInfo { azimuth_deg: Some(-30i32) },
            ChannelInfo { azimuth_deg: Some(30i32) },
        ],
        channels != 1 && channels != 2 && channels != 6 && channels != 8 ==> forall|i: int|
            0 <= i < channels ==> (#[trigger] layout_of(0, channels)[i]).azimuth_deg is None,
{
    reveal_with_fuel(speakers, 4);
    assert(layout_of(0, 2) =~= seq![
        ChannelInfo { azimuth_deg: Some(-30i32) },
        ChannelInfo { azimuth_deg: Some(30i32) },
    ]);
}

} // verus!
