//! Audio endpoints, and which of them to listen to.
//!
//! Capture endpoints and render endpoints are presented in one flat list, with render
//! entries tagged `[LOOPBACK]`: those are how system audio is monitored.
use crate::config::is_text;
use vstd::prelude::*;
use vstd::string::*;

verus! {

/// What a device gives us when opened.
#[derive(Clone, Copy, Debug, PartialEq, Eq, Structural)]
pub enum DeviceKind {
    /// A microphone or line input.
    Capture,
    /// An output endpoint, opened in loopback so we hear what it plays.
    RenderLoopback,
}

impl DeviceKind {
    pub fn is_loopback(self) -> (r: bool)
        ensures
            r == (self == DeviceKind::RenderLoopback),
    {
        self == DeviceKind::RenderLoopback
    }

    pub fn label(self) -> (r: &'static str)
        ensures
            r@ == match self {
                DeviceKind::Capture => "input"@,
                DeviceKind::RenderLoopback => "loopback"@,
            },
    {
        match self {
            DeviceKind::Capture => "input",
            DeviceKind::RenderLoopback => "loopback",
        }
    }
}

#[derive(Debug)]
pub struct AudioDevice {
    /// Endpoint id: stable across reboots, and what gets persisted to config.
    pub id: String,
    pub name: String,
    pub kind: DeviceKind,
    pub is_default: bool,
}

impl AudioDevice {
    pub open spec fn is_default_loopback(&self) -> bool {
        self.kind == DeviceKind::RenderLoopback && self.is_default
    }

    pub open spec fn display(&self) -> Seq<char> {
        self.name@ + (if self.kind == DeviceKind::RenderLoopback {
            " [LOOPBACK]"@
        } else {
            Seq::empty()
        }) + (if self.is_default {
            " (default)"@
        } else {
            Seq::empty()
        })
    }

    /// One line for the device picker.
    pub fn display_name(&self) -> (r: String)
        ensures
            r@ == self.display(),
    {
        let mut s: String = self.name.clone();
        if self.kind.is_loopback() {
            s.append(" [LOOPBACK]");
        }
        if self.is_default {
            s.append(" (default)");
        }
        assert(s@ =~= self.display());
        s
    }
}

/// The place of the first device of a kind, if there is one.
pub open spec fn first_where(
    devices: Seq<AudioDevice>,
    wanted: spec_fn(AudioDevice) -> bool,
    i: int,
) -> Option<int>
    decreases devices.len() - i,
{
    if i < 0 || i >= devices.len() {
        None
    } else if wanted(devices[i]) {
        Some(i)
    } else {
        first_where(devices, wanted, i + 1)
    }
}

pub open spec fn has_id(id: Seq<char>) -> spec_fn(AudioDevice) -> bool {
    |d: AudioDevice| d.id@ == id
}

pub open spec fn default_loopback() -> spec_fn(AudioDevice) -> bool {
    |d: AudioDevice| d.is_default_loopback()
}

pub open spec fn any_loopback() -> spec_fn(AudioDevice) -> bool {
    |d: AudioDevice| d.kind == DeviceKind::RenderLoopback
}

/// The place of the device to open: the one configured, else the default output, else any
/// output, else the first.
pub open spec fn choice(devices: Seq<AudioDevice>, id: Seq<char>) -> Option<int> {
    let configured = if id.len() == 0 {
        None
    } else {
        first_where(devices, has_id(id), 0)
    };
    if configured is Some {
        configured
    } else if first_where(devices, default_loopback(), 0) is Some {
        first_where(devices, default_loopback(), 0)
    } else if first_where(devices, any_loopback(), 0) is Some {
        first_where(devices, any_loopback(), 0)
    } else if devices.len() > 0 {
        Some(0)
    } else {
        None
    }
}

/// Pick the device matching `id`, falling back to the default render endpoint (system
/// audio) when `id` is empty or no longer present.
pub fn select<'a>(devices: &'a [AudioDevice], id: &str) -> (r: Option<&'a AudioDevice>)
    ensures
        match choice(devices@, id@) {
            None => r is None,
            Some(i) => r == Some(&devices@[i]),
        },
{
    if id.unicode_len() > 0 {
        let mut i: usize = 0;
        while i < devices.len()
            invariant
                i <= devices.len(),
                id@.len() > 0,
                first_where(devices@, has_id(id@), 0) == first_where(
                    devices@,
                    has_id(id@),
                    i as int,
                ),
            decreases devices.len() - i,
        {
            if is_text(&devices[i].id, id) {
                return Some(&devices[i]);
            }
            i = i + 1;
        }
    }
    let ghost configured = if id@.len() == 0 {
        None
    } else {
        first_where(devices@, has_id(id@), 0)
    };
    assert(configured is None);
    let mut i: usize = 0;
    let mut loopback: Option<usize> = None;
    while i < devices.len()
        invariant
            i <= devices.len(),
            choice(devices@, id@) == (if first_where(devices@, default_loopback(), 0) is Some {
                first_where(devices@, default_loopback(), 0)
            } else if first_where(devices@, any_loopback(), 0) is Some {
                first_where(devices@, any_loopback(), 0)
            } else if devices.len() > 0 {
                Some(0)
            } else {
                None
            }),
            first_where(devices@, default_loopback(), 0) == first_where(
                devices@,
                default_loopback(),
                i as int,
            ),
            match loopback {
                None => first_where(devices@, any_loopback(), 0) == first_where(
                    devices@,
                    any_loopback(),
                    i as int,
                ),
                Some(k) => k < devices.len() && first_where(devices@, any_loopback(), 0) == Some(
                    k as int,
                ),
            },
        decreases devices.len() - i,
    {
        if devices[i].kind.is_loopback() {
            if devices[i].is_default {
                return Some(&devices[i]);
            }
            if loopback.is_none() {
                loopback = Some(i);
            }
        }
        i = i + 1;
    }
    match loopback {
        Some(k) => Some(&devices[k]),
        None => if devices.len() > 0 {
            Some(&devices[0])
        } else {
            None
        },
    }
}

proof fn lemma_first_where(devices: Seq<AudioDevice>, wanted: spec_fn(AudioDevice) -> bool, i: int)
    requires
        0 <= i,
    ensures
        match first_where(devices, wanted, i) {
            None => forall|k: int| i <= k < devices.len() ==> !wanted(#[trigger] devices[k]),
            Some(k) => i <= k < devices.len() && wanted(devices[k]),
        },
    decreases devices.len() - i,
{
    if i < devices.len() && !wanted(devices[i]) {
        lemma_first_where(devices, wanted, i + 1);
    }
}

/// A missing device never fails: there is always something to listen to where there is any
/// device, it is the configured one where that is present, and otherwise system audio rather
/// than a microphone wherever there is an output.
pub proof fn law_selection_falls_back(devices: Seq<AudioDevice>, id: Seq<char>)
    requires
        devices.len() > 0,
    ensures
        choice(devices, id) matches Some(k) && 0 <= k < devices.len(),
        id.len() > 0 && (exists|k: int|
            0 <= k < devices.len() && (#[trigger] devices[k]).id@ == id) ==> devices[choice(
            devices,
            id,
        )->Some_0].id@ == id,
        (id.len() == 0 || forall|k: int|
            0 <= k < devices.len() ==> (#[trigger] devices[k]).id@ != id) && (exists|k: int|
            0 <= k < devices.len() && (#[trigger] devices[k]).kind == DeviceKind::RenderLoopback)
            ==> devices[choice(devices, id)->Some_0].kind == DeviceKind::RenderLoopback,
{
    lemma_first_where(devices, has_id(id), 0);
    lemma_first_where(devices, default_loopback(), 0);
    lemma_first_where(devices, any_loopback(), 0);
    if exists|k: int| 0 <= k < devices.len() && (#[trigger] devices[k]).id@ == id {
        let k = choose|k: int| 0 <= k < devices.len() && (#[trigger] devices[k]).id@ == id;
        assert(has_id(id)(devices[k]));
    }
    if exists|k: int|
        0 <= k < devices.len() && (#[trigger] devices[k]).kind == DeviceKind::RenderLoopback {
        let k = choose|k: int|
            0 <= k < devices.len() && (#[trigger] devices[k]).kind == DeviceKind::RenderLoopback;
        assert(any_loopback()(devices[k]));
    }
}

/// Of the devices that would do the first listed is taken, and a default output before any other:
/// with no device configured, or none by that name, nothing else comes before it.
pub proof fn law_the_default_output_comes_first(devices: Seq<AudioDevice>, id: Seq<char>, k: int)
    requires
        0 <= k < devices.len(),
        id.len() == 0 || forall|i: int|
            0 <= i < devices.len() ==> (#[trigger] devices[i]).id@ != id,
    ensures
        devices[k].kind == DeviceKind::RenderLoopback && devices[k].is_default ==> ({
            let c = choice(devices, id);
            &&& c is Some
            &&& 0 <= c->Some_0 <= k
            &&& devices[c->Some_0].kind == DeviceKind::RenderLoopback
            &&& devices[c->Some_0].is_default
        }),
        devices[k].kind == DeviceKind::RenderLoopback && (forall|i: int|
            0 <= i < devices.len() ==> !((#[trigger] devices[i]).kind == DeviceKind::RenderLoopback
                && devices[i].is_default)) ==> choice(devices, id) is Some && 0 <= choice(devices, id)->Some_0
            <= k,
        (forall|i: int|
            0 <= i < devices.len() ==> (#[trigger] devices[i]).kind != DeviceKind::RenderLoopback)
            ==> choice(devices, id) == Some(0int),
{
    lemma_first_where(devices, has_id(id), 0);
    lemma_first_where(devices, default_loopback(), 0);
    lemma_first_where(devices, any_loopback(), 0);
    if devices[k].kind == DeviceKind::RenderLoopback && devices[k].is_default {
        assert(default_loopback()(devices[k]));
        lemma_first_is_first(devices, default_loopback(), 0, k);
    }
    if devices[k].kind == DeviceKind::RenderLoopback {
        assert(any_loopback()(devices[k]));
        lemma_first_is_first(devices, any_loopback(), 0, k);
    }
}

proof fn lemma_first_is_first(
    devices: Seq<AudioDevice>,
    wanted: spec_fn(AudioDevice) -> bool,
    i: int,
    k: int,
)
    requires
        0 <= i,
        i <= k < devices.len(),
        wanted(devices[k]),
    ensures
        first_where(devices, wanted, i) matches Some(c) && i <= c <= k,
    decreases devices.len() - i,
{
    if !wanted(devices[i]) {
        lemma_first_is_first(devices, wanted, i + 1, k);
    }
}

} // verus!
