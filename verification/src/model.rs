//! What gets packed: channels, per-channel settings, presets.

use vstd::prelude::*;

use crate::lang::{Translator, t, translated};

verus! {

/// A channel of the output texture.
#[derive(Debug, Clone, Copy, PartialEq, Eq, Hash, Structural)]
pub enum Channel {
    R,
    G,
    B,
    A,
}

impl Channel {
    /// Position of the channel in a pixel: R, G, B, A.
    pub open spec fn idx(self) -> nat {
        match self {
            Channel::R => 0,
            Channel::G => 1,
            Channel::B => 2,
            Channel::A => 3,
        }
    }

    pub open spec fn letter_char(self) -> char {
        match self {
            Channel::R => 'R',
            Channel::G => 'G',
            Channel::B => 'B',
            Channel::A => 'A',
        }
    }

    /// The channel at position `i` (0 to 3).
    pub open spec fn at(i: int) -> Channel {
        if i == 0 {
            Channel::R
        } else if i == 1 {
            Channel::G
        } else if i == 2 {
            Channel::B
        } else {
            Channel::A
        }
    }

    /// All four channels in pixel order.
    pub fn all() -> (r: [Channel; 4])
        ensures
            r@ == seq![Channel::R, Channel::G, Channel::B, Channel::A],
    {
        [Channel::R, Channel::G, Channel::B, Channel::A]
    }

    pub fn index(self) -> (r: usize)
        ensures
            r == self.idx(),
    {
        match self {
            Channel::R => 0,
            Channel::G => 1,
            Channel::B => 2,
            Channel::A => 3,
        }
    }

    pub fn letter(self) -> (r: &'static str)
        ensures
            r@ == seq![self.letter_char()],
    {
        proof {
            reveal_strlit("R");
            reveal_strlit("G");
            reveal_strlit("B");
            reveal_strlit("A");
        }
        match self {
            Channel::R => "R",
            Channel::G => "G",
            Channel::B => "B",
            Channel::A => "A",
        }
    }

    /// The full name of the channel, shown on its card.
    pub fn name(self) -> (r: &'static str)
        ensures
            r@ == match self {
                Channel::R => "Red"@,
                Channel::G => "Green"@,
                Channel::B => "Blue"@,
                Channel::A => "Alpha"@,
            },
    {
        match self {
            Channel::R => "Red",
            Channel::G => "Green",
            Channel::B => "Blue",
            Channel::A => "Alpha",
        }
    }
}

/// Where a value is read in a source image.
#[derive(Debug, Clone, Copy, PartialEq, Eq, Structural)]
pub enum SourceChannel {
    R,
    G,
    B,
    A,
    /// Rec. 709 luminance, computed in linear space.
    Lum,
}

impl Default for SourceChannel {
    fn default() -> (r: SourceChannel)
        ensures
            r == SourceChannel::Lum,
    {
        SourceChannel::Lum
    }
}

impl SourceChannel {
    pub fn all() -> (r: [SourceChannel; 5])
        ensures
            r@ == seq![
                SourceChannel::R,
                SourceChannel::G,
                SourceChannel::B,
                SourceChannel::A,
                SourceChannel::Lum,
            ],
    {
        [SourceChannel::R, SourceChannel::G, SourceChannel::B, SourceChannel::A, SourceChannel::Lum]
    }

    pub fn label(self) -> (r: &'static str)
        ensures
            r@ == match self {
                SourceChannel::R => "R"@,
                SourceChannel::G => "G"@,
                SourceChannel::B => "B"@,
                SourceChannel::A => "A"@,
                SourceChannel::Lum => "Lum"@,
            },
    {
        match self {
            SourceChannel::R => "R",
            SourceChannel::G => "G",
            SourceChannel::B => "B",
            SourceChannel::A => "A",
            SourceChannel::Lum => "Lum",
        }
    }
}

/// The engine a preset is made for: used to group presets and colour their tag.
#[derive(Debug, Clone, Copy, PartialEq, Eq, Structural)]
pub enum Engine {
    Unity,
    Unreal,
    Godot,
    Other,
}

impl Default for Engine {
    fn default() -> (r: Engine)
        ensures
            r == Engine::Other,
    {
        Engine::Other
    }
}

impl Engine {
    /// The engine's name in the interface language.
    pub fn label(self, tr: &Translator) -> (r: String)
        ensures
            r@ == match self {
                Engine::Unity => "Unity"@,
                Engine::Unreal => "Unreal"@,
                Engine::Godot => "Godot"@,
                Engine::Other => translated(tr.russian, tr.ru@, "Other"@),
            },
    {
        match self {
            Engine::Unity => "Unity".to_owned(),
            Engine::Unreal => "Unreal".to_owned(),
            Engine::Godot => "Godot".to_owned(),
            Engine::Other => t(tr, "Other"),
        }
    }

    pub fn all() -> (r: [Engine; 4])
        ensures
            r@ == seq![Engine::Unity, Engine::Unreal, Engine::Godot, Engine::Other],
    {
        [Engine::Unity, Engine::Unreal, Engine::Godot, Engine::Other]
    }
}

/// The abstract value of a channel's settings.
pub struct SlotView {
    pub role: Seq<char>,
    pub source: SourceChannel,
    pub invert: bool,
    pub fill: u8,
    pub srgb: bool,
    pub suffixes: Seq<Seq<char>>,
}

/// Settings of one output channel.
#[derive(Debug, Clone)]
pub struct SlotConfig {
    /// What the channel holds: "Metallic", "Ambient Occlusion". Empty: the
    /// channel is filled with a constant.
    pub role: String,
    /// Which channel of the source image is read.
    pub source: SourceChannel,
    pub invert: bool,
    /// The value the channel is filled with when it has no image.
    pub fill: u8,
    /// The source is in sRGB and is converted to linear before packing.
    pub srgb: bool,
    /// Parts of a file name that put an image into this channel by themselves:
    /// `_Metallic`, `_Metal`. Case does not matter; `*` at the ends is allowed.
    pub suffixes: Vec<String>,
}

pub open spec fn strings_view(v: Seq<String>) -> Seq<Seq<char>> {
    v.map_values(|s: String| s@)
}

pub open spec fn strs_view(v: Seq<&str>) -> Seq<Seq<char>> {
    v.map_values(|s: &str| s@)
}

impl View for SlotConfig {
    type V = SlotView;

    open spec fn view(&self) -> SlotView {
        SlotView {
            role: self.role@,
            source: self.source,
            invert: self.invert,
            fill: self.fill,
            srgb: self.srgb,
            suffixes: strings_view(self.suffixes@),
        }
    }
}

/// A copy of a list of strings.
pub fn copy_strings(v: &Vec<String>) -> (r: Vec<String>)
    ensures
        strings_view(r@) == strings_view(v@),
        r@.len() == v@.len(),
{
    let mut r: Vec<String> = Vec::new();
    let mut i: usize = 0;
    while i < v.len()
        invariant
            i <= v.len(),
            r@.len() == i,
            forall|k: int| 0 <= k < i ==> #[trigger] r@[k]@ == v@[k]@,
        decreases v.len() - i,
    {
        r.push(v[i].clone());
        i += 1;
    }
    assert(strings_view(r@) =~= strings_view(v@));
    r
}

/// Owned copies of string slices.
pub fn owned_strings(v: &[&str]) -> (r: Vec<String>)
    ensures
        strings_view(r@) == strs_view(v@),
        r@.len() == v@.len(),
{
    let mut r: Vec<String> = Vec::new();
    let mut i: usize = 0;
    while i < v.len()
        invariant
            i <= v.len(),
            r@.len() == i,
            forall|k: int| 0 <= k < i ==> #[trigger] r@[k]@ == v@[k]@,
        decreases v.len() - i,
    {
        r.push(v[i].to_owned());
        i += 1;
    }
    assert(strings_view(r@) =~= strs_view(v@));
    r
}

/// Whether two lists of strings hold the same strings in the same order.
pub fn same_strings(a: &Vec<String>, b: &Vec<String>) -> (r: bool)
    ensures
        r == (strings_view(a@) == strings_view(b@)),
{
    if a.len() != b.len() {
        assert(strings_view(a@).len() != strings_view(b@).len());
        return false;
    }
    let mut i: usize = 0;
    while i < a.len()
        invariant
            a.len() == b.len(),
            i <= a.len(),
            forall|k: int| 0 <= k < i ==> #[trigger] a@[k]@ == b@[k]@,
        decreases a.len() - i,
    {
        if a[i] != b[i] {
            assert(strings_view(a@)[i as int] != strings_view(b@)[i as int]);
            return false;
        }
        i += 1;
    }
    assert(strings_view(a@) =~= strings_view(b@));
    true
}

impl Default for SlotConfig {
    fn default() -> (r: SlotConfig)
        ensures
            r@ == (SlotView {
                role: Seq::empty(),
                source: SourceChannel::Lum,
                invert: false,
                fill: 0,
                srgb: false,
                suffixes: Seq::empty(),
            }),
    {
        let r = SlotConfig {
            role: String::new(),
            source: SourceChannel::Lum,
            invert: false,
            fill: 0,
            srgb: false,
            suffixes: Vec::new(),
        };
        assert(strings_view(r.suffixes@) =~= Seq::empty());
        r
    }
}

impl SlotConfig {
    /// A channel that holds `role`, recognised by `suffixes`; the rest default.
    pub fn role(role: &str, suffixes: &[&str]) -> (r: SlotConfig)
        ensures
            r@ == (SlotView {
                role: role@,
                source: SourceChannel::Lum,
                invert: false,
                fill: 0,
                srgb: false,
                suffixes: strs_view(suffixes@),
            }),
    {
        SlotConfig {
            role: role.to_owned(),
            source: SourceChannel::Lum,
            invert: false,
            fill: 0,
            srgb: false,
            suffixes: owned_strings(suffixes),
        }
    }

    /// A channel without a role, filled with `fill`.
    pub fn empty(fill: u8) -> (r: SlotConfig)
        ensures
            r@ == (SlotView {
                role: Seq::empty(),
                source: SourceChannel::Lum,
                invert: false,
                fill: fill,
                srgb: false,
                suffixes: Seq::empty(),
            }),
    {
        let r = SlotConfig {
            role: String::new(),
            source: SourceChannel::Lum,
            invert: false,
            fill,
            srgb: false,
            suffixes: Vec::new(),
        };
        assert(strings_view(r.suffixes@) =~= Seq::empty());
        r
    }

    /// An exact copy.
    pub fn copy(&self) -> (r: SlotConfig)
        ensures
            r@ == self@,
    {
        SlotConfig {
            role: self.role.clone(),
            source: self.source,
            invert: self.invert,
            fill: self.fill,
            srgb: self.srgb,
            suffixes: copy_strings(&self.suffixes),
        }
    }

    /// Whether two channels have the same settings.
    pub fn same(&self, other: &SlotConfig) -> (r: bool)
        ensures
            r == (self@ == other@),
    {
        self.role == other.role && self.source == other.source && self.invert == other.invert
            && self.fill == other.fill && self.srgb == other.srgb && same_strings(
            &self.suffixes,
            &other.suffixes,
        )
    }
}

/// The abstract value of a preset.
pub struct PresetView {
    pub name: Seq<char>,
    pub engine: Engine,
    pub label: Seq<char>,
    pub alpha: bool,
    pub slots: Seq<SlotView>,
    pub builtin: bool,
}

/// A preset: how maps are laid out over the channels for one engine.
#[derive(Debug, Clone)]
pub struct Preset {
    pub name: String,
    pub engine: Engine,
    /// The label in the output file name: `_MaskMap`, `_ORM`.
    pub label: String,
    /// Whether the alpha channel is written. Without it the output is RGB.
    pub alpha: bool,
    /// The channels in order R, G, B, A.
    pub slots: [SlotConfig; 4],
    /// A built-in preset: never deleted nor overwritten.
    pub builtin: bool,
}

impl View for Preset {
    type V = PresetView;

    open spec fn view(&self) -> PresetView {
        PresetView {
            name: self.name@,
            engine: self.engine,
            label: self.label@,
            alpha: self.alpha,
            slots: self.slots@.map_values(|s: SlotConfig| s@),
            builtin: self.builtin,
        }
    }
}

/// The channels that end up in the file: RGBA, or RGB without alpha.
pub open spec fn channels_of(alpha: bool) -> Seq<Channel> {
    if alpha {
        seq![Channel::R, Channel::G, Channel::B, Channel::A]
    } else {
        seq![Channel::R, Channel::G, Channel::B]
    }
}

/// Whether two presets agree in everything but being built in.
pub open spec fn same_config(a: PresetView, b: PresetView) -> bool {
    &&& a.name == b.name
    &&& a.engine == b.engine
    &&& a.label == b.label
    &&& a.alpha == b.alpha
    &&& a.slots == b.slots
}

/// Having the same settings is an equivalence: it holds of a preset and
/// itself, both ways round, and passes along a chain.
pub proof fn law_same_config_equivalence(a: PresetView, b: PresetView, c: PresetView)
    ensures
        same_config(a, a),
        same_config(a, b) == same_config(b, a),
        same_config(a, b) && same_config(b, c) ==> same_config(a, c),
{
}

/// The blank preset under `name`: four channels without a role, the first
/// three filled black and alpha filled white.
pub open spec fn blank_view(name: Seq<char>) -> PresetView {
    PresetView {
        name,
        engine: Engine::Other,
        label: "_Packed"@,
        alpha: true,
        slots: Seq::new(
            4,
            |i: int|
                SlotView {
                    role: Seq::empty(),
                    source: SourceChannel::Lum,
                    invert: false,
                    fill: if i == 3 {
                        255u8
                    } else {
                        0u8
                    },
                    srgb: false,
                    suffixes: Seq::empty(),
                },
        ),
        builtin: false,
    }
}

impl Default for Preset {
    /// The blank preset, named in the language the interface is written in.
    fn default() -> (r: Preset)
        ensures
            r@ == blank_view("New preset"@),
    {
        let r = Preset {
            name: "New preset".to_owned(),
            engine: Engine::Other,
            label: "_Packed".to_owned(),
            alpha: true,
            slots: [
                SlotConfig::empty(0),
                SlotConfig::empty(0),
                SlotConfig::empty(0),
                SlotConfig::empty(255),
            ],
            builtin: false,
        };
        assert(r@.slots =~= blank_view("New preset"@).slots);
        r
    }
}

impl Preset {
    /// The blank preset, named in the interface language.
    pub fn blank(tr: &Translator) -> (r: Preset)
        ensures
            r@ == blank_view(translated(tr.russian, tr.ru@, "New preset"@)),
    {
        let mut r = Preset::default();
        r.name = t(tr, "New preset");
        r
    }
}

impl Preset {
    /// Whether the settings agree, leaving aside whether the preset is built in.
    pub fn same_config(&self, other: &Preset) -> (r: bool)
        ensures
            r == same_config(self@, other@),
    {
        let mut slots_same = true;
        let mut i: usize = 0;
        while i < 4
            invariant
                i <= 4,
                slots_same == forall|k: int| 0 <= k < i ==> #[trigger] self.slots@[k]@
                    == other.slots@[k]@,
            decreases 4 - i,
        {
            let s = self.slots[i].same(&other.slots[i]);
            slots_same = slots_same && s;
            i += 1;
        }
        proof {
            if slots_same {
                assert(self@.slots =~= other@.slots);
            } else {
                let k = choose|k: int| 0 <= k < 4 && self.slots@[k]@ != other.slots@[k]@;
                assert(self@.slots[k] != other@.slots[k]);
            }
        }
        self.name == other.name && self.engine == other.engine && self.label == other.label
            && self.alpha == other.alpha && slots_same
    }

    /// The channels that end up in the file.
    pub fn channels(&self) -> (r: Vec<Channel>)
        ensures
            r@ == channels_of(self.alpha),
    {
        let mut r = Vec::new();
        r.push(Channel::R);
        r.push(Channel::G);
        r.push(Channel::B);
        if self.alpha {
            r.push(Channel::A);
        }
        r
    }

    /// An exact copy.
    pub fn copy(&self) -> (r: Preset)
        ensures
            r@ == self@,
    {
        let r = Preset {
            name: self.name.clone(),
            engine: self.engine,
            label: self.label.clone(),
            alpha: self.alpha,
            slots: [
                self.slots[0].copy(),
                self.slots[1].copy(),
                self.slots[2].copy(),
                self.slots[3].copy(),
            ],
            builtin: self.builtin,
        };
        assert(r@.slots =~= self@.slots);
        r
    }
}

/// Output file format: lossless only.
#[derive(Debug, Clone, Copy, PartialEq, Eq, Structural)]
pub enum OutputFormat {
    Png,
    Tga,
    Tiff,
}

impl Default for OutputFormat {
    fn default() -> (r: OutputFormat)
        ensures
            r == OutputFormat::Png,
    {
        OutputFormat::Png
    }
}

impl OutputFormat {
    pub fn all() -> (r: [OutputFormat; 3])
        ensures
            r@ == seq![OutputFormat::Png, OutputFormat::Tga, OutputFormat::Tiff],
    {
        [OutputFormat::Png, OutputFormat::Tga, OutputFormat::Tiff]
    }

    pub fn label(self) -> (r: &'static str)
        ensures
            r@ == match self {
                OutputFormat::Png => "PNG"@,
                OutputFormat::Tga => "TGA"@,
                OutputFormat::Tiff => "TIFF"@,
            },
    {
        match self {
            OutputFormat::Png => "PNG",
            OutputFormat::Tga => "TGA",
            OutputFormat::Tiff => "TIFF",
        }
    }

    pub open spec fn extension_spec(self) -> Seq<char> {
        match self {
            OutputFormat::Png => "png"@,
            OutputFormat::Tga => "tga"@,
            OutputFormat::Tiff => "tif"@,
        }
    }

    pub fn extension(self) -> (r: &'static str)
        ensures
            r@ == self.extension_spec(),
    {
        match self {
            OutputFormat::Png => "png",
            OutputFormat::Tga => "tga",
            OutputFormat::Tiff => "tif",
        }
    }

    /// TGA is 8-bit only.
    pub fn supports_16bit(self) -> (r: bool)
        ensures
            r == (self != OutputFormat::Tga),
    {
        !matches!(self, OutputFormat::Tga)
    }
}

/// What to do when the sources differ in size.
#[derive(Debug, Clone, Copy, PartialEq, Eq, Structural)]
pub enum SizePolicy {
    Largest,
    Smallest,
    Custom,
}

impl Default for SizePolicy {
    fn default() -> (r: SizePolicy)
        ensures
            r == SizePolicy::Largest,
    {
        SizePolicy::Largest
    }
}

/// The largest side of a texture that is read or written.
pub const MAX_SIZE: u32 = 8192;

} // verus!
