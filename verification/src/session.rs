//! The working state of the packer, apart from the screen: the preset list
//! and the copy being edited, the images in the channels and the library of
//! loaded images, undo and redo, and the notices the interface should show.

use vstd::prelude::*;

use crate::batch::stem_of;
use crate::model::{
    Channel, OutputFormat, Preset, PresetView, SizePolicy, SlotView, channels_of, same_config,
    strings_view,
};
use crate::naming::{
    NameParts, base_name, base_name_of, match_keys, match_patterns, pattern_keys, render,
    render_name,
};
use crate::presets::{inverse_of_key, inverse_source, is_unique_name, role_key, role_key_of, unique_name};
use crate::text::{CharSet, is_white, trim, trim_chars};
use crate::text::{chars_eq_ignore_ascii_case, eq_ignore_ascii_case, lowercase};
use crate::paths::{file_stem, opt_chars, parent, path_parent};
use crate::presets::{builtin, builtin_presets, presets_view};
use crate::size::{target_of, target_size};
use crate::state::{BatchState, Dialog, LoadTarget, OutputSettings, ToastKind};
use crate::naming::{match_suffix, suffix_match};
use crate::paths::paths_equal;
use crate::source::same_path;
use crate::text::{chars_of, string_of};

verus! {

// ------------------------------------------------------------ sources

/// The abstract value of a loaded image.
pub struct SourceView {
    pub id: u64,
    pub path: Seq<char>,
    pub name: Seq<char>,
    pub width: u32,
    pub height: u32,
}

/// What the logic needs to know of a loaded image; the pixels stay with the
/// caller, found again by `id`.
#[derive(Debug)]
pub struct SourceInfo {
    /// Unique within a run.
    pub id: u64,
    pub path: String,
    /// The file name, as shown.
    pub name: String,
    pub width: u32,
    pub height: u32,
}

impl View for SourceInfo {
    type V = SourceView;

    open spec fn view(&self) -> SourceView {
        SourceView {
            id: self.id,
            path: self.path@,
            name: self.name@,
            width: self.width,
            height: self.height,
        }
    }
}

impl SourceInfo {
    pub fn size(&self) -> (r: (u32, u32))
        ensures
            r == (self.width, self.height),
    {
        (self.width, self.height)
    }

    /// The file name without extension.
    pub fn stem(&self) -> (r: String)
        ensures
            r@ == stem_of(self.path@),
    {
        match file_stem(self.path.as_str()) {
            Some(s) => s,
            None => String::new(),
        }
    }

    /// An exact copy.
    pub fn copy(&self) -> (r: SourceInfo)
        ensures
            r@ == self@,
    {
        SourceInfo {
            id: self.id,
            path: self.path.clone(),
            name: self.name.clone(),
            width: self.width,
            height: self.height,
        }
    }
}

pub open spec fn source_opt(o: Option<SourceInfo>) -> Option<SourceView> {
    match o {
        Some(s) => Some(s@),
        None => None,
    }
}

/// The images in the four channels.
pub open spec fn slots_view(slots: [Option<SourceInfo>; 4]) -> Seq<Option<SourceView>> {
    slots@.map_values(|o: Option<SourceInfo>| source_opt(o))
}

pub open spec fn id_of(o: Option<SourceView>) -> Option<u64> {
    match o {
        Some(s) => Some(s.id),
        None => None,
    }
}

fn copy_opt(o: &Option<SourceInfo>) -> (r: Option<SourceInfo>)
    ensures
        source_opt(r) == source_opt(*o),
{
    match o {
        Some(s) => Some(s.copy()),
        None => None,
    }
}

fn copy_slots(slots: &[Option<SourceInfo>; 4]) -> (r: [Option<SourceInfo>; 4])
    ensures
        slots_view(r) == slots_view(*slots),
{
    let r = [copy_opt(&slots[0]), copy_opt(&slots[1]), copy_opt(&slots[2]), copy_opt(&slots[3])];
    assert(slots_view(r) =~= slots_view(*slots));
    r
}

/// The first channel, in the order R, G, B, A, that holds an image.
pub open spec fn first_source(slots: Seq<Option<SourceView>>) -> Option<SourceView>
    decreases slots.len(),
{
    if slots.len() == 0 {
        None
    } else {
        match slots[0] {
            Some(s) => Some(s),
            None => first_source(slots.drop_first()),
        }
    }
}

fn first_source_exec(slots: &[Option<SourceInfo>; 4]) -> (r: Option<&SourceInfo>)
    ensures
        match r {
            Some(s) => first_source(slots_view(*slots)) == Some(s@),
            None => first_source(slots_view(*slots)) is None,
        },
{
    let ghost v = slots_view(*slots);
    let mut i: usize = 0;
    assert(v.skip(0) == v);
    while i < 4
        invariant
            i <= 4,
            v == slots_view(*slots),
            first_source(v) == first_source(v.skip(i as int)),
        decreases 4 - i,
    {
        assert(v.skip(i as int)[0] == source_opt(slots@[i as int]));
        assert(v.skip(i as int).drop_first() == v.skip(i + 1));
        match &slots[i] {
            Some(s) => {
                return Some(s);
            },
            None => {},
        }
        i += 1;
    }
    assert(v.skip(4).len() == 0);
    None
}

// ------------------------------------------------------------ the session

/// A notice for the user: how it looks, what it says, and the file it can
/// show in the file manager.
pub struct Toast {
    pub kind: ToastKind,
    pub text: String,
    pub reveal: Option<String>,
}

/// The abstract value of a notice.
pub type Note = (ToastKind, Seq<char>, Option<Seq<char>>);

/// How many seconds longer a notice stays on screen: one with a button, or
/// an error, waits for the button to be reached.
pub fn extra(toast: &Toast) -> (r: u64)
    ensures
        r == if toast.reveal is Some || toast.kind == ToastKind::Error {
            4u64
        } else {
            0u64
        },
{
    if toast.reveal.is_some() || toast.kind == ToastKind::Error {
        4
    } else {
        0
    }
}

/// A state that undo can go back to: the preset, its working copy and the
/// images in the channels.
pub struct Snapshot {
    pub selected: usize,
    pub work: Preset,
    pub slots: [Option<SourceInfo>; 4],
}

/// The working state of the packer.
pub struct Session {
    pub presets: Vec<Preset>,
    pub selected: usize,
    /// The working copy of the selected preset: everything the interface edits.
    pub work: Preset,
    pub slots: [Option<SourceInfo>; 4],
    /// All loaded images, the most recent first.
    pub library: Vec<SourceInfo>,
    pub output: OutputSettings,
    pub undo: Vec<Snapshot>,
    pub redo: Vec<Snapshot>,
    pub settled: Snapshot,
    /// Notices not yet shown.
    pub notices: Vec<Toast>,
    pub dialog: Option<Dialog>,
    /// The preset list has changed and should be saved.
    pub persist: bool,
    pub batch: BatchState,
    /// Where the last export or batch wrote.
    pub last_export: Option<String>,
}

pub open spec fn notices_view(v: Seq<Toast>) -> Seq<Note> {
    v.map_values(|n: Toast| (n.kind, n.text@, opt_chars(n.reveal)))
}

impl Session {
    /// The list is never empty, starts with a built-in preset, and the
    /// selection is inside it.
    pub open spec fn wf(&self) -> bool {
        &&& self.list_wf()
        &&& self.selected < self.presets@.len()
    }

    /// The list is never empty and starts with a built-in preset.
    pub open spec fn list_wf(&self) -> bool {
        &&& self.presets@.len() > 0
        &&& self.presets@[0].builtin
    }

    /// A session over the built-in presets followed by the user's own. The
    /// HDRP Mask Map preset, the fullest of the built-in ones, is selected.
    pub fn new(user: Vec<Preset>, output: OutputSettings) -> (r: Session)
        ensures
            r.wf(),
            presets_view(r.presets@) == builtin_presets() + presets_view(user@),
            r.selected == 1,
            r.work@ == r.presets@[1]@,
            slots_view(r.slots) == seq![None::<SourceView>, None, None, None],
            r.library@.len() == 0,
            r.undo@.len() == 0,
            r.redo@.len() == 0,
            r.notices@.len() == 0,
            r.dialog is None,
            !r.persist,
            r.output == output,
            r.batch.files@.len() == 0,
            r.batch.plan_key is None,
            r.batch.run is None,
            r.last_export is None,
    {
        let mut list = builtin();
        let ghost b = presets_view(list@);
        let mut user = user;
        let ghost u = presets_view(user@);
        list.append(&mut user);
        assert(presets_view(list@) =~= b + u);
        let selected: usize = 1;
        let work = list[selected].copy();
        let settled = Snapshot { selected, work: list[selected].copy(), slots: [None, None, None, None] };
        let r = Session {
            presets: list,
            selected,
            work,
            slots: [None, None, None, None],
            library: Vec::new(),
            output,
            undo: Vec::new(),
            redo: Vec::new(),
            settled,
            notices: Vec::new(),
            dialog: None,
            persist: false,
            batch: BatchState::default(),
            last_export: None,
        };
        assert(slots_view(r.slots) =~= seq![None::<SourceView>, None, None, None]);
        assert(r.presets@[0]@ == builtin_presets()[0]);
        r
    }

    /// The session the program starts with: the built-in presets, then the
    /// user's own as read from the presets file; when the file could not be
    /// read, the built-in ones alone and a notice with the error. Output
    /// settings are the defaults.
    pub fn start(loaded: Result<Vec<Preset>, String>) -> (r: Session)
        ensures
            r.wf(),
            r.selected == 1,
            r.work@ == r.presets@[1]@,
            slots_view(r.slots) == seq![None::<SourceView>, None, None, None],
            r.library@.len() == 0,
            r.undo@.len() == 0,
            r.redo@.len() == 0,
            r.dialog is None,
            !r.persist,
            r.output.template@ == "{basename}{label}"@,
            r.output.format == OutputFormat::Png,
            !r.output.sixteen,
            r.output.folder is None,
            r.output.policy == SizePolicy::Largest,
            r.output.custom == (2048u32, 2048u32),
            !r.output.overwrite,
            match loaded {
                Ok(user) => {
                    &&& presets_view(r.presets@) == builtin_presets() + presets_view(user@)
                    &&& r.notices@.len() == 0
                },
                Err(e) => {
                    &&& presets_view(r.presets@) == builtin_presets()
                    &&& notices_view(r.notices@) == seq![(ToastKind::Error, e@, None::<Seq<char>>)]
                },
            },
    {
        match loaded {
            Ok(user) => Session::new(user, OutputSettings::default()),
            Err(e) => {
                let none: Vec<Preset> = Vec::new();
                assert(presets_view(none@) =~= Seq::<PresetView>::empty());
                let mut s = Session::new(none, OutputSettings::default());
                assert(builtin_presets() + Seq::<PresetView>::empty() =~= builtin_presets());
                s.toast(ToastKind::Error, e);
                assert(notices_view(s.notices@) =~= seq![(ToastKind::Error, e@, None::<Seq<char>>)]);
                s
            },
        }
    }

    /// The saved preset that is selected.
    pub fn current(&self) -> (r: &Preset)
        requires
            self.wf(),
        ensures
            r == self.presets@[self.selected as int],
    {
        &self.presets[self.selected]
    }

    /// The working copy differs from the saved preset.
    pub fn modified(&self) -> (r: bool)
        requires
            self.wf(),
        ensures
            r == !same_config(self.work@, self.presets@[self.selected as int]@),
    {
        !self.work.same_config(&self.presets[self.selected])
    }

    /// Whether alpha is shown in the RGBA preview: written, and from an image.
    pub fn alpha_visible(&self) -> (r: bool)
        ensures
            r == (self.work.alpha && self.slots@[3] is Some),
    {
        self.work.alpha && self.slots[3].is_some()
    }

    pub fn clear_slot(&mut self, channel: Channel)
        ensures
            slots_view(final(self).slots) == slots_view(old(self).slots).update(
                channel.idx() as int,
                None,
            ),
            unchanged(*old(self), Session { slots: old(self).slots, ..*final(self) }),
    {
        self.slots[channel.index()] = None;
        assert(slots_view(self.slots) =~= slots_view(old(self).slots).update(
            channel.idx() as int,
            None,
        ));
    }

    pub fn clear_all(&mut self)
        ensures
            slots_view(final(self).slots) == seq![None::<SourceView>, None, None, None],
            unchanged(*old(self), Session { slots: old(self).slots, ..*final(self) }),
    {
        self.slots = [None, None, None, None];
        assert(slots_view(self.slots) =~= seq![None::<SourceView>, None, None, None]);
    }
}

// ------------------------------------------------------------ sizes and names

/// The sizes of the images in the channels that go into the file.
pub open spec fn sizes_of(slots: Seq<Option<SourceView>>, chans: Seq<Channel>) -> Seq<(u32, u32)>
    decreases chans.len(),
{
    if chans.len() == 0 {
        Seq::empty()
    } else {
        let rest = sizes_of(slots, chans.drop_last());
        match slots[chans.last().idx() as int] {
            Some(s) => rest.push((s.width, s.height)),
            None => rest,
        }
    }
}

/// Some two neighbours in the list differ.
pub open spec fn differ(sizes: Seq<(u32, u32)>) -> bool {
    exists|k: int| 0 <= k < sizes.len() - 1 && #[trigger] sizes[k] != sizes[k + 1]
}

/// The output folder: the one chosen, or the folder of the first image.
pub open spec fn output_dir_of(folder: Option<Seq<char>>, slots: Seq<Option<SourceView>>) -> Option<
    Seq<char>,
> {
    match folder {
        Some(f) => Some(f),
        None => match first_source(slots) {
            Some(s) => path_parent(s.path),
            None => None,
        },
    }
}

/// The common name of the material in the channels, for `{basename}`.
pub open spec fn basename_spec(slots: Seq<Option<SourceView>>, work: PresetView) -> Seq<char> {
    match first_source(slots) {
        Some(s) => base_name_of(stem_of(s.path), work),
        None => "Untitled"@,
    }
}

impl Session {
    /// The sizes of the images in the channels that go into the file.
    pub fn source_sizes(&self) -> (r: Vec<(u32, u32)>)
        ensures
            r@ == sizes_of(slots_view(self.slots), channels_of(self.work.alpha)),
    {
        let chans = self.work.channels();
        let ghost v = slots_view(self.slots);
        let mut r: Vec<(u32, u32)> = Vec::new();
        let mut i: usize = 0;
        while i < chans.len()
            invariant
                i <= chans.len(),
                chans@ == channels_of(self.work.alpha),
                v == slots_view(self.slots),
                r@ == sizes_of(v, chans@.take(i as int)),
            decreases chans.len() - i,
        {
            assert(chans@.take(i + 1).drop_last() == chans@.take(i as int));
            let c = chans[i].index();
            assert(v[c as int] == source_opt(self.slots@[c as int]));
            match &self.slots[c] {
                Some(s) => r.push(s.size()),
                None => {},
            }
            i += 1;
        }
        assert(chans@.take(chans.len() as int) == chans@);
        r
    }

    /// The images that go into the file differ in size.
    pub fn sizes_differ(&self) -> (r: bool)
        ensures
            r == differ(sizes_of(slots_view(self.slots), channels_of(self.work.alpha))),
    {
        let sizes = self.source_sizes();
        let ghost sv = sizes@;
        let mut i: usize = 0;
        while sizes.len() > 0 && i < sizes.len() - 1
            invariant
                sv == sizes@,
                sv == sizes_of(slots_view(self.slots), channels_of(self.work.alpha)),
                forall|k: int| 0 <= k < i ==> #[trigger] sv[k] == sv[k + 1],
            decreases sizes.len() - i,
        {
            if sizes[i].0 != sizes[i + 1].0 || sizes[i].1 != sizes[i + 1].1 {
                assert(sv[i as int] != sv[i + 1]);
                assert(differ(sv));
                return true;
            }
            i += 1;
        }
        false
    }

    /// The size of the result.
    pub fn target_size(&self) -> (r: Option<(u32, u32)>)
        ensures
            r == target_of(
                sizes_of(slots_view(self.slots), channels_of(self.work.alpha)),
                self.output.policy,
                self.output.custom,
            ),
    {
        let sizes = self.source_sizes();
        target_size(sizes.as_slice(), self.output.policy, self.output.custom)
    }

    /// The common name of the material, for `{basename}`.
    pub fn basename(&self) -> (r: String)
        ensures
            r@ == basename_spec(slots_view(self.slots), self.work@),
    {
        match first_source_exec(&self.slots) {
            Some(s) => base_name(s.stem().as_str(), &self.work),
            None => "Untitled".to_owned(),
        }
    }

    /// The file name of the result, with extension.
    pub fn output_name(&self, date: &str) -> (r: String)
        ensures
            r@ == render_name(
                self.output.template@,
                basename_spec(slots_view(self.slots), self.work@),
                self.work.name@,
                self.work.label@,
                date@,
            ) + "."@ + self.output.format.extension_spec(),
    {
        let base = self.basename();
        let parts = NameParts {
            basename: base.as_str(),
            preset: self.work.name.as_str(),
            label: self.work.label.as_str(),
        };
        let name = render(self.output.template.as_str(), &parts, date);
        let mut v = chars_of(name.as_str());
        v.push('.');
        crate::text::append(&mut v, &chars_of(self.output.format.extension()));
        proof {
            reveal_strlit(".");
        }
        string_of(v.as_slice())
    }

    /// The output folder: the one chosen, or the folder of the first image.
    pub fn output_dir(&self) -> (r: Option<String>)
        ensures
            opt_chars(r) == output_dir_of(opt_chars(self.output.folder), slots_view(self.slots)),
    {
        match &self.output.folder {
            Some(f) => Some(f.clone()),
            None => match first_source_exec(&self.slots) {
                Some(s) => parent(s.path.as_str()),
                None => None,
            },
        }
    }

    /// Set the output size by hand, starting from the size it has now, or go
    /// back to the size of the largest source.
    pub fn set_custom_size(&mut self, on: bool)
        ensures
            final(self).output.policy == if on {
                SizePolicy::Custom
            } else {
                SizePolicy::Largest
            },
            final(self).output.custom == if on && target_of(
                sizes_of(slots_view(old(self).slots), channels_of(old(self).work.alpha)),
                old(self).output.policy,
                old(self).output.custom,
            ) is Some {
                target_of(
                    sizes_of(slots_view(old(self).slots), channels_of(old(self).work.alpha)),
                    old(self).output.policy,
                    old(self).output.custom,
                )->Some_0
            } else {
                old(self).output.custom
            },
            final(self).output == (OutputSettings {
                policy: final(self).output.policy,
                custom: final(self).output.custom,
                ..old(self).output
            }),
            unchanged(*old(self), Session { output: old(self).output, ..*final(self) }),
    {
        if on {
            match self.target_size() {
                Some(size) => {
                    self.output.custom = size;
                },
                None => {},
            }
            self.output.policy = SizePolicy::Custom;
        } else {
            self.output.policy = SizePolicy::Largest;
        }
    }

    /// Why export cannot start now, if it cannot.
    pub fn can_export(&self, exporting: bool) -> (r: Result<(), &'static str>)
        ensures
            r matches Err(e) ==> e@ == if exporting {
                "Export in progress"@
            } else if target_of(
                sizes_of(slots_view(self.slots), channels_of(self.work.alpha)),
                self.output.policy,
                self.output.custom,
            ) is None {
                "Assign at least one image, or set a custom size"@
            } else {
                "Choose an output folder"@
            },
            r is Ok <==> !exporting && target_of(
                sizes_of(slots_view(self.slots), channels_of(self.work.alpha)),
                self.output.policy,
                self.output.custom,
            ) is Some && output_dir_of(opt_chars(self.output.folder), slots_view(self.slots)) is Some,
    {
        if exporting {
            return Err("Export in progress");
        }
        if self.target_size().is_none() {
            return Err("Assign at least one image, or set a custom size");
        }
        if self.output_dir().is_none() {
            return Err("Choose an output folder");
        }
        Ok(())
    }
}


// ------------------------------------------------------------ moving to another preset

/// The match of a list of suffixes against the name of an image.
pub open spec fn source_match(s: SourceView, suffixes: Seq<Seq<char>>) -> Option<(int, Seq<char>)> {
    let stem = stem_of(s.path);
    match_keys(stem, lowercase(stem), pattern_keys(suffixes))
}

/// The first image of the library that is a map of material `base` by one
/// of the suffixes.
pub open spec fn library_find(lib: Seq<SourceView>, base: Seq<char>, suffixes: Seq<Seq<char>>) -> Option<
    SourceView,
>
    decreases lib.len(),
{
    if lib.len() == 0 {
        None
    } else {
        match source_match(lib[0], suffixes) {
            Some(m) if eq_ignore_ascii_case(m.1, base) => Some(lib[0]),
            _ => library_find(lib.drop_first(), base, suffixes),
        }
    }
}

/// The first image in the channels whose name has one of the suffixes.
pub open spec fn slot_find(slots: Seq<Option<SourceView>>, suffixes: Seq<Seq<char>>) -> Option<
    SourceView,
>
    decreases slots.len(),
{
    if slots.len() == 0 {
        None
    } else {
        match slots[0] {
            Some(s) if source_match(s, suffixes) is Some => Some(s),
            _ => slot_find(slots.drop_first(), suffixes),
        }
    }
}

/// The image that held the same role in the preset left: from the first
/// channel with an image and that role.
pub open spec fn carried(cfg: Seq<SlotView>, slots: Seq<Option<SourceView>>, role: Seq<char>) -> Option<
    SourceView,
>
    decreases slots.len(),
{
    if slots.len() == 0 || cfg.len() == 0 {
        None
    } else {
        match slots[0] {
            Some(s) if role_key(cfg[0].role) == role => Some(s),
            _ => carried(cfg.drop_first(), slots.drop_first(), role),
        }
    }
}

/// The image a channel of the new preset gets, and whether it comes
/// inverted: the image that had the same role; else a map of the same
/// material from the library; else, for a role that is another map
/// inverted, that map from the library or from the channels.
pub open spec fn chosen_image(
    cfg: SlotView,
    old_cfg: Seq<SlotView>,
    old_slots: Seq<Option<SourceView>>,
    lib: Seq<SourceView>,
    base: Option<Seq<char>>,
) -> (Option<SourceView>, bool) {
    let role = role_key(cfg.role);
    if role.len() == 0 {
        (None, false)
    } else {
        match carried(old_cfg, old_slots, role) {
            Some(s) => (Some(s), false),
            None => match base {
                None => (None, false),
                Some(b) => match library_find(lib, b, cfg.suffixes) {
                    Some(s) => (Some(s), false),
                    None => match inverse_of_key(role_key(role)) {
                        None => (None, false),
                        Some(opposite) => match library_find(lib, b, opposite) {
                            Some(s) => (Some(s), true),
                            None => match slot_find(old_slots, opposite) {
                                Some(s) => (Some(s), true),
                                None => (None, false),
                            },
                        },
                    },
                },
            },
        }
    }
}

proof fn lemma_library_find(lib: Seq<SourceView>, base: Seq<char>, suffixes: Seq<Seq<char>>)
    ensures
        library_find(lib, base, suffixes) matches Some(s) ==> {
            &&& lib.contains(s)
            &&& source_match(s, suffixes) matches Some(m) && eq_ignore_ascii_case(m.1, base)
        },
    decreases lib.len(),
{
    if lib.len() > 0 {
        lemma_library_find(lib.drop_first(), base, suffixes);
        if let Some(s) = library_find(lib.drop_first(), base, suffixes) {
            let k = choose|k: int| 0 <= k < lib.drop_first().len() && lib.drop_first()[k] == s;
            assert(lib[k + 1] == s);
        }
        assert(lib[0] == lib[0]);
    }
}

proof fn lemma_slot_find(slots: Seq<Option<SourceView>>, suffixes: Seq<Seq<char>>)
    ensures
        slot_find(slots, suffixes) matches Some(s) ==> {
            &&& slots.contains(Some(s))
            &&& source_match(s, suffixes) is Some
        },
    decreases slots.len(),
{
    if slots.len() > 0 {
        lemma_slot_find(slots.drop_first(), suffixes);
        if let Some(s) = slot_find(slots.drop_first(), suffixes) {
            if slots[0] != Some(s) || source_match(s, suffixes) is None {
                let k = choose|k: int| 0 <= k < slots.drop_first().len() && slots.drop_first()[k] == Some(s);
                assert(slots[k + 1] == Some(s));
            }
        }
        assert(slots[0] == slots[0]);
    }
}

/// A channel's image comes inverted only when it was found as the map its
/// role (by its key) is the inverse of (roughness for smoothness, smoothness for
/// roughness), among the loaded images or in the channels. An image that
/// does not come inverted is the one that had the same role, or a map of the
/// same material by the channel's own suffixes. When neither of those exists
/// but the library holds the inverse map of that material, that map is used,
/// inverted.
pub proof fn law_inverted_only_from_the_opposite_map(
    cfg: SlotView,
    old_cfg: Seq<SlotView>,
    old_slots: Seq<Option<SourceView>>,
    lib: Seq<SourceView>,
    base: Option<Seq<char>>,
)
    ensures
        ({
            let (img, inv) = chosen_image(cfg, old_cfg, old_slots, lib, base);
            let opp = inverse_of_key(role_key(role_key(cfg.role)));
            inv ==> {
                &&& img is Some
                &&& opp is Some
                &&& source_match(img->Some_0, opp->Some_0) is Some
                &&& lib.contains(img->Some_0) || old_slots.contains(img)
            }
        }),
        ({
            let (img, inv) = chosen_image(cfg, old_cfg, old_slots, lib, base);
            img is Some && !inv ==> {
                ||| carried(old_cfg, old_slots, role_key(cfg.role)) == img
                ||| base is Some && library_find(lib, base->Some_0, cfg.suffixes) == img
            }
        }),
        ({
            let role = role_key(cfg.role);
            let opp = inverse_of_key(role_key(role));
            ({
                &&& role.len() > 0
                &&& carried(old_cfg, old_slots, role) is None
                &&& base is Some
                &&& library_find(lib, base->Some_0, cfg.suffixes) is None
                &&& opp is Some
                &&& library_find(lib, base->Some_0, opp->Some_0) is Some
            }) ==> chosen_image(cfg, old_cfg, old_slots, lib, base) == (
                library_find(lib, base->Some_0, opp->Some_0),
                true,
            )
        }),
{
    let role = role_key(cfg.role);
    if let Some(b) = base {
        lemma_library_find(lib, b, cfg.suffixes);
        if let Some(opp) = inverse_of_key(role_key(role)) {
            lemma_library_find(lib, b, opp);
            lemma_slot_find(old_slots, opp);
        }
    }
}

/// Where a channel of the new preset finds its image, in order: a channel
/// without a role gets none; the image that had the same role comes first;
/// then a map of the same material by the channel's own suffixes from the
/// library; then the inverse map, inverted; and with none of these the
/// channel stays empty.
pub proof fn law_image_lookup_order(
    cfg: SlotView,
    old_cfg: Seq<SlotView>,
    old_slots: Seq<Option<SourceView>>,
    lib: Seq<SourceView>,
    base: Option<Seq<char>>,
)
    ensures
        role_key(cfg.role).len() == 0 ==> chosen_image(cfg, old_cfg, old_slots, lib, base) == (
            None::<SourceView>,
            false,
        ),
        role_key(cfg.role).len() > 0 && carried(old_cfg, old_slots, role_key(cfg.role)) is Some
            ==> chosen_image(cfg, old_cfg, old_slots, lib, base) == (
            carried(old_cfg, old_slots, role_key(cfg.role)),
            false,
        ),
        role_key(cfg.role).len() > 0 && carried(old_cfg, old_slots, role_key(cfg.role)) is None && base is Some
            && library_find(lib, base->Some_0, cfg.suffixes) is Some ==> chosen_image(
            cfg,
            old_cfg,
            old_slots,
            lib,
            base,
        ) == (library_find(lib, base->Some_0, cfg.suffixes), false),
        (role_key(cfg.role).len() > 0 && carried(old_cfg, old_slots, role_key(cfg.role)) is None && base is None)
            ==> chosen_image(cfg, old_cfg, old_slots, lib, base) == (None::<SourceView>, false),
        chosen_image(cfg, old_cfg, old_slots, lib, base).0 is None ==> !chosen_image(
            cfg,
            old_cfg,
            old_slots,
            lib,
            base,
        ).1,
{
}

/// The notice for channel `i` taking an inverted map.
pub open spec fn inversion_note(new: PresetView, c: (Option<SourceView>, bool), i: int) -> Note {
    (ToastKind::Info, new.slots[i].role + " ← inverted "@ + c.0->Some_0.name, None)
}

/// `note` is the notice of one of channels `0..n` that takes an inverted map.
pub open spec fn is_inversion_note(
    note: Note,
    new: PresetView,
    prev: PresetView,
    slots: Seq<Option<SourceView>>,
    lib: Seq<SourceView>,
    n: int,
) -> bool {
    exists|i: int|
        0 <= i < n && (#[trigger] choice_at(new, prev, slots, lib, i)).1 && note == inversion_note(
            new,
            choice_at(new, prev, slots, lib, i),
            i,
        )
}

/// Moving to another preset notes every channel that takes an inverted map,
/// and nothing else.
pub proof fn law_inversions_noticed(
    new: PresetView,
    prev: PresetView,
    slots: Seq<Option<SourceView>>,
    lib: Seq<SourceView>,
    n: int,
)
    ensures
        forall|i: int|
            0 <= i < n && (#[trigger] choice_at(new, prev, slots, lib, i)).1 ==> inversion_notes(
                new,
                prev,
                slots,
                lib,
                n,
            ).contains(inversion_note(new, choice_at(new, prev, slots, lib, i), i)),
        forall|j: int|
            0 <= j < inversion_notes(new, prev, slots, lib, n).len() ==> is_inversion_note(
                #[trigger] inversion_notes(new, prev, slots, lib, n)[j],
                new,
                prev,
                slots,
                lib,
                n,
            ),
    decreases n,
{
    if n > 0 {
        law_inversions_noticed(new, prev, slots, lib, n - 1);
        let rest = inversion_notes(new, prev, slots, lib, n - 1);
        let all = inversion_notes(new, prev, slots, lib, n);
        let c = choice_at(new, prev, slots, lib, n - 1);
        assert forall|i: int|
            0 <= i < n && (#[trigger] choice_at(new, prev, slots, lib, i)).1 implies all.contains(
            inversion_note(new, choice_at(new, prev, slots, lib, i), i),
        ) by {
            if i == n - 1 {
                assert(all[rest.len() as int] == inversion_note(new, c, i));
            } else {
                let note = inversion_note(new, choice_at(new, prev, slots, lib, i), i);
                assert(rest.contains(note));
                let k = choose|k: int| 0 <= k < rest.len() && rest[k] == note;
                assert(all[k] == note);
            }
        }
        assert forall|j: int| 0 <= j < all.len() implies is_inversion_note(
            #[trigger] all[j],
            new,
            prev,
            slots,
            lib,
            n,
        ) by {
            if j < rest.len() {
                assert(all[j] == rest[j]);
                assert(is_inversion_note(rest[j], new, prev, slots, lib, n - 1));
                let i = choose|i: int|
                    0 <= i < n - 1 && (#[trigger] choice_at(new, prev, slots, lib, i)).1 && rest[j]
                        == inversion_note(new, choice_at(new, prev, slots, lib, i), i);
                assert(0 <= i < n);
                assert(all[j] == inversion_note(new, choice_at(new, prev, slots, lib, i), i));
            } else {
                assert(c.1);
                assert(all == rest.push(inversion_note(new, c, n - 1)));
                assert(j == rest.len());
                assert(all[j] == inversion_note(new, c, n - 1));
                assert(choice_at(new, prev, slots, lib, n - 1).1);
            }
        }
    } else {
        assert(inversion_notes(new, prev, slots, lib, n).len() == 0);
    }
}

/// The material of the images in the channels, by the preset they were in.
pub open spec fn material_of(slots: Seq<Option<SourceView>>, preset: PresetView) -> Option<Seq<char>> {
    match first_source(slots) {
        Some(s) => Some(base_name_of(stem_of(s.path), preset)),
        None => None,
    }
}

pub open spec fn library_view(lib: Seq<SourceInfo>) -> Seq<SourceView> {
    lib.map_values(|s: SourceInfo| s@)
}

/// What channel `i` of the new preset gets when moving from `prev` with
/// `slots`.
pub open spec fn choice_at(
    new: PresetView,
    prev: PresetView,
    slots: Seq<Option<SourceView>>,
    lib: Seq<SourceView>,
    i: int,
) -> (Option<SourceView>, bool) {
    if i == 3 && !new.alpha {
        (None, false)
    } else {
        chosen_image(new.slots[i], prev.slots, slots, lib, material_of(slots, prev))
    }
}

/// The notices about inverted maps for channels `0..n`.
pub open spec fn inversion_notes(
    new: PresetView,
    prev: PresetView,
    slots: Seq<Option<SourceView>>,
    lib: Seq<SourceView>,
    n: int,
) -> Seq<Note>
    decreases n,
{
    if n <= 0 {
        Seq::empty()
    } else {
        let rest = inversion_notes(new, prev, slots, lib, n - 1);
        let c = choice_at(new, prev, slots, lib, n - 1);
        if c.1 {
            rest.push(
                (
                    crate::state::ToastKind::Info,
                    new.slots[n - 1].role + " ← inverted "@ + c.0->Some_0.name,
                    None,
                ),
            )
        } else {
            rest
        }
    }
}

fn library_find_exec(lib: &Vec<SourceInfo>, base: &str, suffixes: &Vec<String>) -> (r: Option<
    SourceInfo,
>)
    ensures
        source_opt(r) == library_find(library_view(lib@), base@, strings_view(suffixes@)),
{
    let ghost lv = library_view(lib@);
    let ghost sv = strings_view(suffixes@);
    let b = chars_of(base);
    let mut i: usize = 0;
    assert(lv.skip(0) == lv);
    while i < lib.len()
        invariant
            i <= lib.len(),
            lv == library_view(lib@),
            sv == strings_view(suffixes@),
            b@ == base@,
            library_find(lv, base@, sv) == library_find(lv.skip(i as int), base@, sv),
        decreases lib.len() - i,
    {
        let ghost rest = lv.skip(i as int);
        assert(rest[0] == lib@[i as int]@);
        assert(rest.drop_first() == lv.skip(i + 1));
        let stem = lib[i].stem();
        match match_patterns(stem.as_str(), suffixes.as_slice()) {
            Some((_, m)) => {
                if chars_eq_ignore_ascii_case(&chars_of(m.as_str()), &b) {
                    return Some(lib[i].copy());
                }
            },
            None => {},
        }
        i += 1;
    }
    assert(lv.skip(lib.len() as int).len() == 0);
    None
}

fn slot_find_exec(slots: &[Option<SourceInfo>; 4], suffixes: &Vec<String>) -> (r: Option<SourceInfo>)
    ensures
        source_opt(r) == slot_find(slots_view(*slots), strings_view(suffixes@)),
{
    let ghost v = slots_view(*slots);
    let ghost sv = strings_view(suffixes@);
    let mut i: usize = 0;
    assert(v.skip(0) == v);
    while i < 4
        invariant
            i <= 4,
            v == slots_view(*slots),
            sv == strings_view(suffixes@),
            slot_find(v, sv) == slot_find(v.skip(i as int), sv),
        decreases 4 - i,
    {
        let ghost rest = v.skip(i as int);
        assert(rest[0] == source_opt(slots@[i as int]));
        assert(rest.drop_first() == v.skip(i + 1));
        match &slots[i] {
            Some(s) => {
                let stem = s.stem();
                if match_patterns(stem.as_str(), suffixes.as_slice()).is_some() {
                    return Some(s.copy());
                }
            },
            None => {},
        }
        i += 1;
    }
    assert(v.skip(4).len() == 0);
    None
}

fn carried_exec(cfg: &Preset, slots: &[Option<SourceInfo>; 4], role: &Vec<char>) -> (r: Option<
    SourceInfo,
>)
    ensures
        source_opt(r) == carried(cfg@.slots, slots_view(*slots), role@),
{
    let ghost v = slots_view(*slots);
    let ghost c = cfg@.slots;
    let mut i: usize = 0;
    assert(v.skip(0) == v && c.skip(0) == c);
    while i < 4
        invariant
            i <= 4,
            v == slots_view(*slots),
            c == cfg@.slots,
            c.len() == 4,
            carried(c, v, role@) == carried(c.skip(i as int), v.skip(i as int), role@),
        decreases 4 - i,
    {
        assert(v.skip(i as int)[0] == source_opt(slots@[i as int]));
        assert(c.skip(i as int)[0] == cfg.slots@[i as int]@);
        assert(v.skip(i as int).drop_first() == v.skip(i + 1));
        assert(c.skip(i as int).drop_first() == c.skip(i + 1));
        match &slots[i] {
            Some(s) => {
                let k = chars_of(role_key_of(cfg.slots[i].role.as_str()).as_str());
                if crate::text::same_chars(&k, role) {
                    return Some(s.copy());
                }
            },
            None => {},
        }
        i += 1;
    }
    assert(v.skip(4).len() == 0);
    None
}

fn chosen_exec(
    cfg: &crate::model::SlotConfig,
    prev: &Preset,
    slots: &[Option<SourceInfo>; 4],
    lib: &Vec<SourceInfo>,
    base: &Option<String>,
) -> (r: (Option<SourceInfo>, bool))
    ensures
        (source_opt(r.0), r.1) == chosen_image(
            cfg@,
            prev@.slots,
            slots_view(*slots),
            library_view(lib@),
            opt_chars(*base),
        ),
{
    let role = chars_of(role_key_of(cfg.role.as_str()).as_str());
    if role.len() == 0 {
        return (None, false);
    }
    match carried_exec(prev, slots, &role) {
        Some(s) => {
            return (Some(s), false);
        },
        None => {},
    }
    let b = match base {
        Some(b) => b,
        None => {
            return (None, false);
        },
    };
    match library_find_exec(lib, b.as_str(), &cfg.suffixes) {
        Some(s) => {
            return (Some(s), false);
        },
        None => {},
    }
    let opposite = match inverse_source(string_of(role.as_slice()).as_str()) {
        Some(o) => o,
        None => {
            return (None, false);
        },
    };
    match library_find_exec(lib, b.as_str(), &opposite) {
        Some(s) => (Some(s), true),
        None => match slot_find_exec(slots, &opposite) {
            Some(s) => (Some(s), true),
            None => (None, false),
        },
    }
}

/// `b` is `a` moved to preset `index`: the working copy is that preset with
/// some channels inverted, the images follow their roles, and a notice says
/// each inversion.
/// The notices that moving from `a`'s working copy to preset `index` adds.
pub open spec fn applied_notes(a: Session, index: usize) -> Seq<Note> {
    inversion_notes(
        a.presets@[index as int]@,
        a.work@,
        slots_view(a.slots),
        library_view(a.library@),
        4,
    )
}

/// `b` is `a` moved to preset `index`, all but the notices.
pub open spec fn applied_core(a: Session, b: Session, index: usize) -> bool {
    let new = a.presets@[index as int]@;
    let old_work = a.work@;
    let slots = slots_view(a.slots);
    let lib = library_view(a.library@);
    &&& b.wf()
    &&& keeps_other(a, b)
    &&& b.selected == index
    &&& b.presets@ == a.presets@
    &&& b.library@ == a.library@
    &&& b.dialog == a.dialog
    &&& b.persist == a.persist
    &&& b.work@.name == new.name
    &&& b.work@.engine == new.engine
    &&& b.work@.label == new.label
    &&& b.work@.alpha == new.alpha
    &&& b.work@.builtin == new.builtin
    &&& b.work@.slots.len() == 4
    &&& forall|i: int|
        0 <= i < 4 ==> #[trigger] b.work@.slots[i] == (SlotView {
            invert: new.slots[i].invert != choice_at(new, old_work, slots, lib, i).1,
            ..new.slots[i]
        })
    &&& forall|i: int|
        0 <= i < 4 ==> #[trigger] slots_view(b.slots)[i] == choice_at(new, old_work, slots, lib, i).0
}

/// `b` is `a` moved to preset `index`.
pub open spec fn is_applied(a: Session, b: Session, index: usize) -> bool {
    &&& applied_core(a, b, index)
    &&& notices_view(b.notices@) == notices_view(a.notices@) + applied_notes(a, index)
}

impl Session {
    /// Move to preset `index`. Images follow their roles: Metallic from
    /// channel R in URP lands in channel B in Unreal ORM. A role that had no
    /// image looks for a map of the same material in the library, and a
    /// smoothness or roughness channel can take the other map inverted.
    pub fn apply_preset(&mut self, index: usize)
        requires
            old(self).list_wf(),
            index < old(self).presets@.len(),
        ensures
            is_applied(*old(self), *final(self), index),
    {
        let ghost new = self.presets@[index as int]@;
        let ghost old_work = self.work@;
        let ghost old_slots = slots_view(self.slots);
        let ghost lib = library_view(self.library@);
        let ghost old_notices = notices_view(self.notices@);
        let mut old_preset = self.presets[index].copy();
        std::mem::swap(&mut self.work, &mut old_preset);
        let mut old_imgs: [Option<SourceInfo>; 4] = [None, None, None, None];
        std::mem::swap(&mut self.slots, &mut old_imgs);
        self.selected = index;
        let base: Option<String> = match first_source_exec(&old_imgs) {
            Some(s) => Some(base_name(s.stem().as_str(), &old_preset)),
            None => None,
        };
        assert(opt_chars(base) == material_of(old_slots, old_work));
        let mut i: usize = 0;
        while i < 4
            invariant
                i <= 4,
                self.wf(),
                self.selected == index,
                self.presets@ == old(self).presets@,
                self.library@ == old(self).library@,
                self.dialog == old(self).dialog,
                self.persist == old(self).persist,
                keeps_other(*old(self), *self),
                new == self.presets@[index as int]@,
                lib == library_view(self.library@),
                old_slots == slots_view(old_imgs),
                old_work == old_preset@,
                opt_chars(base) == material_of(old_slots, old_work),
                self.work@.name == new.name,
                self.work@.engine == new.engine,
                self.work@.label == new.label,
                self.work@.alpha == new.alpha,
                self.work@.builtin == new.builtin,
                forall|k: int|
                    0 <= k < i ==> #[trigger] self.work@.slots[k] == (SlotView {
                        invert: new.slots[k].invert != choice_at(new, old_work, old_slots, lib, k).1,
                        ..new.slots[k]
                    }),
                forall|k: int| i <= k < 4 ==> #[trigger] self.work@.slots[k] == new.slots[k],
                forall|k: int|
                    0 <= k < i ==> #[trigger] slots_view(self.slots)[k] == choice_at(
                        new,
                        old_work,
                        old_slots,
                        lib,
                        k,
                    ).0,
                forall|k: int| i <= k < 4 ==> #[trigger] slots_view(self.slots)[k] is None,
                notices_view(self.notices@) == old_notices + inversion_notes(
                    new,
                    old_work,
                    old_slots,
                    lib,
                    i as int,
                ),
            decreases 4 - i,
        {
            let ghost before_slots = slots_view(self.slots);
            let ghost before_work = self.work@.slots;
            let ghost before_notes = notices_view(self.notices@);
            assert(self.work@.slots[i as int] == self.work.slots@[i as int]@);
            assert(self.work@.slots[i as int] == new.slots[i as int]);
            if i == 3 && !self.work.alpha {
                proof {
                    assert(slots_view(self.slots) =~= before_slots.update(
                        i as int,
                        choice_at(new, old_work, old_slots, lib, i as int).0,
                    ));
                }
                i += 1;
                continue;
            }
            let (img, flip) = chosen_exec(
                &self.work.slots[i],
                &old_preset,
                &old_imgs,
                &self.library,
                &base,
            );
            let ghost ch = choice_at(new, old_work, old_slots, lib, i as int);
            assert((source_opt(img), flip) == ch);
            proof {
                if flip {
                    assert(img is Some);
                }
            }
            if flip {
                let mut text = chars_of(self.work.slots[i].role.as_str());
                crate::text::append(&mut text, &chars_of(" ← inverted "));
                match &img {
                    Some(s) => crate::text::append(&mut text, &chars_of(s.name.as_str())),
                    None => {},
                }
                let t = string_of(text.as_slice());
                assert(t@ == new.slots[i as int].role + " ← inverted "@ + ch.0->Some_0.name);
                self.notices.push(Toast { kind: ToastKind::Info, text: t, reveal: None });
                assert(notices_view(self.notices@) =~= before_notes.push(
                    (ToastKind::Info, new.slots[i as int].role + " ← inverted "@ + ch.0->Some_0.name, None),
                ));
                let inv = !self.work.slots[i].invert;
                self.work.slots[i].invert = inv;
            }
            proof {
                assert(self.work@.slots =~= before_work.update(
                    i as int,
                    SlotView { invert: new.slots[i as int].invert != flip, ..new.slots[i as int] },
                ));
            }
            self.slots[i] = img;
            proof {
                assert(slots_view(self.slots) =~= before_slots.update(
                    i as int,
                    choice_at(new, old_work, old_slots, lib, i as int).0,
                ));
                assert(notices_view(self.notices@) =~= old_notices + inversion_notes(
                    new,
                    old_work,
                    old_slots,
                    lib,
                    (i + 1) as int,
                ));
            }
            i += 1;
        }
        let ghost ntexts = inversion_notes(new, old_work, old_slots, lib, 4);
        let ghost nv = notices_view(self.notices@);
        assert(nv == old_notices + ntexts);
    }
}


// ------------------------------------------------------------ the preset list

/// Nothing of the session has changed.
pub open spec fn unchanged(a: Session, b: Session) -> bool {
    &&& b.presets@ == a.presets@
    &&& b.selected == a.selected
    &&& b.work@ == a.work@
    &&& slots_view(b.slots) == slots_view(a.slots)
    &&& b.library@ == a.library@
    &&& notices_view(b.notices@) == notices_view(a.notices@)
    &&& b.dialog == a.dialog
    &&& b.persist == a.persist
    &&& b.output == a.output
    &&& b.undo@ == a.undo@
    &&& b.redo@ == a.redo@
    &&& b.settled == a.settled
    &&& b.batch == a.batch
    &&& b.last_export == a.last_export
}

/// Nothing has changed beyond the presets, the working state, the library,
/// the notices and the dialog: not the output settings, the undo history, the
/// batch tab nor the last export.
pub open spec fn keeps_other(a: Session, b: Session) -> bool {
    unchanged(
        a,
        Session {
            presets: a.presets,
            selected: a.selected,
            work: a.work,
            slots: a.slots,
            library: a.library,
            notices: a.notices,
            dialog: a.dialog,
            persist: a.persist,
            ..b
        },
    )
}

/// Some preset other than the one at `except` has this name, ignoring ASCII case.
pub open spec fn taken_by_other(presets: Seq<PresetView>, except: int, name: Seq<char>) -> bool {
    exists|i: int|
        0 <= i < presets.len() && i != except && eq_ignore_ascii_case(
            #[trigger] presets[i].name,
            name,
        )
}

/// `p` as a user preset.
pub open spec fn as_user(p: PresetView) -> PresetView {
    PresetView { builtin: false, ..p }
}

pub open spec fn quoted(prefix: Seq<char>, name: Seq<char>) -> Seq<char> {
    prefix + "“"@ + name + "”"@
}

/// `b` is `a` with the working copy added as a new user preset, under a
/// name that no preset has (its own, or with " copy" when unchanged), and
/// selected; the working copy takes that name.
pub open spec fn saved_as_new(a: Session, b: Session) -> bool {
    let old_p = presets_view(a.presets@);
    let new_p = presets_view(b.presets@);
    let work = a.work@;
    let wanted = if work.name == old_p[a.selected as int].name {
        work.name + " copy"@
    } else {
        work.name
    };
    &&& new_p.len() == old_p.len() + 1
    &&& new_p.drop_last() == old_p
    &&& is_unique_name(old_p, trim(wanted, CharSet::White), new_p.last().name)
    &&& new_p.last() == PresetView { name: new_p.last().name, ..as_user(work) }
    &&& b.selected == old_p.len()
    &&& b.work@ == PresetView { name: new_p.last().name, ..work }
    &&& b.persist
    &&& notices_view(b.notices@) == notices_view(a.notices@).push(
        (ToastKind::Success, quoted("Created preset "@, new_p.last().name), None),
    )
}

/// `b` is `a` with the working copy saved over the selected preset: as a
/// new preset when that one is built in, refused with a warning when another
/// preset has the name or the name is blank.
pub open spec fn is_saved(a: Session, b: Session) -> bool {
    let old_p = presets_view(a.presets@);
    let sel = a.selected as int;
    let work = a.work@;
    &&& keeps_other(a, b)
    &&& b.wf()
    &&& slots_view(b.slots) == slots_view(a.slots)
    &&& b.library@ == a.library@
    &&& b.dialog == a.dialog
    &&& if old_p[sel].builtin {
        saved_as_new(a, b)
    } else if taken_by_other(old_p, sel, work.name) || trim(work.name, CharSet::White).len() == 0 {
        &&& b.presets@ == a.presets@
        &&& b.selected == a.selected
        &&& b.work@ == work
        &&& b.persist == a.persist
        &&& notices_view(b.notices@) == notices_view(a.notices@).push(
            (ToastKind::Warning, "A preset with this name already exists"@, None),
        )
    } else {
        &&& presets_view(b.presets@) == old_p.update(sel, as_user(work))
        &&& b.selected == a.selected
        &&& b.work@ == work
        &&& b.persist
        &&& notices_view(b.notices@) == notices_view(a.notices@).push(
            (ToastKind::Success, quoted("Saved preset "@, work.name), None),
        )
    }
}

/// `b` is `a` after the question about unsaved changes is answered: saving
/// first (moving on only if nothing is left unsaved), or discarding them.
pub open spec fn switch_answered(a: Session, b: Session, save: bool) -> bool {
    match a.dialog {
        Some(Dialog::SwitchPreset(i)) => {
            let a0 = Session { dialog: None, ..a };
            if !save {
                if i < a.presets@.len() {
                    is_applied(a0, b, i)
                } else {
                    unchanged(a0, b)
                }
            } else {
                exists|mid: Session|
                    #[trigger] is_saved(a0, mid) && if same_config(
                        mid.work@,
                        mid.presets@[mid.selected as int]@,
                    ) && i < mid.presets@.len() {
                        is_applied(mid, b, i)
                    } else {
                        unchanged(mid, b)
                    }
            }
        },
        _ => unchanged(a, b),
    }
}

impl Session {
    /// Select preset `index`; with unsaved changes, ask first.
    pub fn select_preset(&mut self, index: usize)
        requires
            old(self).wf(),
        ensures
            keeps_other(*old(self), *final(self)),
            if index == old(self).selected || index >= old(self).presets@.len() {
                unchanged(*old(self), *final(self))
            } else if !same_config(
                old(self).work@,
                old(self).presets@[old(self).selected as int]@,
            ) {
                &&& final(self).dialog == Some(Dialog::SwitchPreset(index))
                &&& unchanged(*old(self), Session { dialog: old(self).dialog, ..*final(self) })
            } else {
                is_applied(*old(self), *final(self), index)
            },
    {
        if index == self.selected || index >= self.presets.len() {
            return;
        }
        if self.modified() {
            self.dialog = Some(Dialog::SwitchPreset(index));
        } else {
            self.apply_preset(index);
        }
    }

    /// Answer the question about unsaved changes asked by `select_preset`:
    /// save them and move on (staying when the save was refused), or drop
    /// them and move on.
    pub fn answer_switch(&mut self, save: bool)
        requires
            old(self).wf(),
        ensures
            switch_answered(*old(self), *final(self), save),
            final(self).wf(),
    {
        let index = match &self.dialog {
            Some(Dialog::SwitchPreset(i)) => *i,
            _ => return,
        };
        self.dialog = None;
        if !save {
            if index < self.presets.len() {
                self.force_select(index);
            }
            return;
        }
        self.save_preset();
        let ghost mid = *self;
        if !self.modified() && index < self.presets.len() {
            self.force_select(index);
        }
        assert(is_saved(Session { dialog: None, ..*old(self) }, mid));
    }

    /// Select preset `index`, dropping unsaved changes.
    pub fn force_select(&mut self, index: usize)
        requires
            old(self).wf(),
            index < old(self).presets@.len(),
        ensures
            is_applied(*old(self), *final(self), index),
    {
        self.apply_preset(index);
    }

    /// Throw away the changes to the working copy.
    pub fn revert_preset(&mut self)
        requires
            old(self).wf(),
        ensures
            final(self).wf(),
            final(self).work@ == old(self).presets@[old(self).selected as int]@,
            unchanged(*old(self), Session { work: old(self).work, ..*final(self) }),
    {
        self.work = self.presets[self.selected].copy();
    }

    /// Add a notice for the interface to show.
    pub fn toast(&mut self, kind: ToastKind, text: String)
        ensures
            board(*final(self)) == notify(board(*old(self)), kind, text@),
            keeps_rest(*old(self), *final(self)),
    {
        let ghost before = notices_view(self.notices@);
        let ghost t = text@;
        self.notices.push(Toast { kind, text, reveal: None });
        assert(notices_view(self.notices@) =~= before.push((kind, t, None)));
    }

    fn push_notice(&mut self, kind: ToastKind, prefix: &str, name: &str)
        ensures
            keeps_other(*old(self), *final(self)),
            notices_view(final(self).notices@) == notices_view(old(self).notices@).push(
                (kind, quoted(prefix@, name@), None),
            ),
            final(self).presets@ == old(self).presets@,
            final(self).selected == old(self).selected,
            final(self).work@ == old(self).work@,
            slots_view(final(self).slots) == slots_view(old(self).slots),
            final(self).library@ == old(self).library@,
            final(self).dialog == old(self).dialog,
            final(self).persist == old(self).persist,
    {
        let mut text = chars_of(prefix);
        crate::text::append(&mut text, &chars_of("“"));
        crate::text::append(&mut text, &chars_of(name));
        crate::text::append(&mut text, &chars_of("”"));
        let ghost before = notices_view(self.notices@);
        self.notices.push(Toast { kind, text: string_of(text.as_slice()), reveal: None });
        assert(notices_view(self.notices@) =~= before.push((kind, quoted(prefix@, name@), None)));
    }

    /// Whether another preset already has this name.
    fn name_taken_elsewhere(&self, name: &str) -> (r: bool)
        ensures
            r == taken_by_other(presets_view(self.presets@), self.selected as int, name@),
    {
        let ghost pv = presets_view(self.presets@);
        let n = chars_of(name);
        let mut i: usize = 0;
        while i < self.presets.len()
            invariant
                i <= self.presets.len(),
                pv == presets_view(self.presets@),
                n@ == name@,
                forall|k: int|
                    0 <= k < i && k != self.selected ==> !eq_ignore_ascii_case(
                        #[trigger] pv[k].name,
                        name@,
                    ),
            decreases self.presets.len() - i,
        {
            if i != self.selected && chars_eq_ignore_ascii_case(
                &chars_of(self.presets[i].name.as_str()),
                &n,
            ) {
                assert(pv[i as int].name == self.presets@[i as int].name@);
                return true;
            }
            i += 1;
        }
        false
    }

    /// Save the working copy as a new user preset with a free name: the
    /// name it has, or "… copy" when it still has the saved one.
    pub fn save_preset_as_new(&mut self)
        requires
            old(self).wf(),
        ensures
            keeps_other(*old(self), *final(self)),
            final(self).wf(),
            saved_as_new(*old(self), *final(self)),
            slots_view(final(self).slots) == slots_view(old(self).slots),
            final(self).library@ == old(self).library@,
            final(self).dialog == old(self).dialog,
    {
        let ghost old_p = presets_view(self.presets@);
        let mut preset = self.work.copy();
        preset.builtin = false;
        let same = self.work.name == self.presets[self.selected].name;
        let wanted = if same {
            let mut w = chars_of(self.work.name.as_str());
            crate::text::append(&mut w, &chars_of(" copy"));
            w
        } else {
            chars_of(self.work.name.as_str())
        };
        let wanted = trim_chars(&wanted, CharSet::White, true, true);
        let name = unique_name(self.presets.as_slice(), string_of(wanted.as_slice()).as_str());
        preset.name = name.clone();
        self.work.name = name.clone();
        self.presets.push(preset);
        self.selected = self.presets.len() - 1;
        self.persist = true;
        assert(presets_view(self.presets@).drop_last() =~= old_p);
        self.push_notice(ToastKind::Success, "Created preset ", name.as_str());
    }

    /// Save the working copy over the selected preset. A built-in preset is
    /// never overwritten: a new one is made instead. A name that another
    /// preset has, or an empty one, is refused with a warning.
    pub fn save_preset(&mut self)
        requires
            old(self).wf(),
        ensures
            is_saved(*old(self), *final(self)),
    {
        if self.presets[self.selected].builtin {
            self.save_preset_as_new();
            return;
        }
        let ghost old_p = presets_view(self.presets@);
        let mut preset = self.work.copy();
        preset.builtin = false;
        let taken = self.name_taken_elsewhere(preset.name.as_str());
        let blank = trim_chars(&chars_of(preset.name.as_str()), CharSet::White, true, true).len() == 0;
        if taken || blank {
            let ghost before = notices_view(self.notices@);
            self.notices.push(
                Toast {
                    kind: ToastKind::Warning,
                    text: "A preset with this name already exists".to_owned(),
                    reveal: None,
                },
            );
            assert(notices_view(self.notices@) =~= before.push(
                (ToastKind::Warning, "A preset with this name already exists"@, None),
            ));
            return;
        }
        let sel = self.selected;
        self.presets.set(sel, preset);
        self.persist = true;
        assert(presets_view(self.presets@) =~= old_p.update(sel as int, as_user(self.work@)));
        let name = self.work.name.clone();
        self.push_notice(ToastKind::Success, "Saved preset ", name.as_str());
    }

    /// Duplicate the selected preset as it looks now, under a free name.
    pub fn duplicate_preset(&mut self)
        requires
            old(self).wf(),
        ensures
            keeps_other(*old(self), *final(self)),
            final(self).wf(),
            ({
                let old_p = presets_view(old(self).presets@);
                let new_p = presets_view(final(self).presets@);
                &&& new_p.len() == old_p.len() + 1
                &&& new_p.drop_last() == old_p
                &&& is_unique_name(
                    old_p,
                    old_p[old(self).selected as int].name + " copy"@,
                    new_p.last().name,
                )
                &&& new_p.last() == PresetView { name: new_p.last().name, ..as_user(old(self).work@) }
                &&& final(self).selected == old_p.len()
                &&& final(self).work@ == new_p.last()
                &&& final(self).persist
            }),
            slots_view(final(self).slots) == slots_view(old(self).slots),
            final(self).library@ == old(self).library@,
            notices_view(final(self).notices@) == notices_view(old(self).notices@),
            final(self).dialog == old(self).dialog,
    {
        let ghost old_p = presets_view(self.presets@);
        let mut preset = self.work.copy();
        preset.builtin = false;
        let mut wanted = chars_of(self.presets[self.selected].name.as_str());
        crate::text::append(&mut wanted, &chars_of(" copy"));
        preset.name = unique_name(self.presets.as_slice(), string_of(wanted.as_slice()).as_str());
        self.work = preset.copy();
        self.presets.push(preset);
        self.selected = self.presets.len() - 1;
        self.persist = true;
        assert(presets_view(self.presets@).drop_last() =~= old_p);
    }

    /// Add a blank preset under a free name and select it.
    pub fn new_preset(&mut self)
        requires
            old(self).wf(),
        ensures
            keeps_other(*old(self), *final(self)),
            ({
                let old_p = presets_view(old(self).presets@);
                let new_p = presets_view(final(self).presets@);
                &&& new_p.len() == old_p.len() + 1
                &&& new_p.drop_last() == old_p
                &&& is_unique_name(old_p, "New preset"@, new_p.last().name)
                &&& final(self).persist
                &&& final(self).selected == old_p.len()
                &&& final(self).wf()
            }),
    {
        let ghost old_p = presets_view(self.presets@);
        let mut preset = Preset::default();
        preset.name = unique_name(self.presets.as_slice(), "New preset");
        self.presets.push(preset);
        self.persist = true;
        assert(presets_view(self.presets@).drop_last() =~= old_p);
        let index = self.presets.len() - 1;
        self.force_select(index);
    }

    /// Delete a user preset. Built-in presets are never deleted. When the
    /// selected one goes, the one that took its place (or the last) is selected.
    pub fn delete_preset(&mut self, index: usize)
        requires
            old(self).wf(),
        ensures
            keeps_other(*old(self), *final(self)),
            final(self).wf(),
            index >= old(self).presets@.len() || old(self).presets@[index as int].builtin ==> unchanged(
                *old(self),
                *final(self),
            ),
            index < old(self).presets@.len() && !old(self).presets@[index as int].builtin ==> {
                &&& final(self).presets@ == old(self).presets@.remove(index as int)
                &&& final(self).persist
                &&& (old(self).selected < index ==> final(self).selected == old(self).selected)
                &&& (old(self).selected > index ==> final(self).selected == old(self).selected - 1)
                &&& (old(self).selected == index ==> final(self).selected == if index
                    < final(self).presets@.len() {
                    index
                } else {
                    (final(self).presets@.len() - 1) as usize
                })
                &&& (old(self).selected != index ==> {
                    &&& final(self).work@ == old(self).work@
                    &&& slots_view(final(self).slots) == slots_view(old(self).slots)
                    &&& final(self).library@ == old(self).library@
                    &&& final(self).dialog == old(self).dialog
                    &&& notices_view(final(self).notices@) == notices_view(old(self).notices@).push(
                        deleted_note(old(self).presets@[index as int]),
                    )
                })
                &&& (old(self).selected == index ==> {
                    let mid = Session { presets: final(self).presets, persist: true, ..*old(self) };
                    &&& applied_core(mid, *final(self), final(self).selected)
                    &&& notices_view(final(self).notices@) == (notices_view(old(self).notices@)
                        + applied_notes(mid, final(self).selected)).push(
                        deleted_note(old(self).presets@[index as int]),
                    )
                })
            },
    {
        if index >= self.presets.len() || self.presets[index].builtin {
            return;
        }
        let removed = self.presets.remove(index);
        self.persist = true;
        let ghost mid = *self;
        if self.selected == index {
            let last = self.presets.len() - 1;
            let next = if index < last {
                index
            } else {
                last
            };
            self.apply_preset(next);
        } else if self.selected > index {
            self.selected = self.selected - 1;
        }
        self.push_notice(ToastKind::Info, "Deleted preset ", removed.name.as_str());
    }
}

/// The notice that a preset was deleted.
pub open spec fn deleted_note(p: Preset) -> Note {
    (ToastKind::Info, quoted("Deleted preset "@, p.name@), None)
}

/// Where a preset lands when moved up or down among the user presets, and
/// where the selection goes: `None` when the move is refused (the edge of
/// the list, or a built-in preset on either side).
pub open spec fn moved(presets: Seq<PresetView>, selected: int, index: int, up: bool) -> Option<
    (Seq<PresetView>, int),
> {
    let target = if up {
        index - 1
    } else {
        index + 1
    };
    if target < 0 || target >= presets.len() || presets[target].builtin || presets[index].builtin {
        None
    } else {
        let swapped = presets.update(index, presets[target]).update(target, presets[index]);
        let sel = if selected == index {
            target
        } else if selected == target {
            index
        } else {
            selected
        };
        Some((swapped, sel))
    }
}

/// Moving a user preset up and then down again puts everything back, the
/// selection too.
pub proof fn law_move_up_then_down(presets: Seq<PresetView>, selected: int, index: int)
    requires
        0 <= index < presets.len(),
        moved(presets, selected, index, true) is Some,
    ensures
        ({
            let (p1, s1) = moved(presets, selected, index, true)->Some_0;
            &&& moved(p1, s1, index - 1, false) is Some
            &&& moved(p1, s1, index - 1, false)->Some_0 == (presets, selected)
        }),
{
    let (p1, s1) = moved(presets, selected, index, true)->Some_0;
    let (p2, s2) = moved(p1, s1, index - 1, false)->Some_0;
    assert(p2 =~= presets);
}

impl Session {
    /// Move a user preset up or down among the user presets.
    pub fn move_preset(&mut self, index: usize, up: bool)
        requires
            old(self).wf(),
            !up ==> index < usize::MAX,
            up && index == old(self).presets@.len() ==> old(self).presets@[index - 1].builtin,
        ensures
            keeps_other(*old(self), *final(self)),
            final(self).wf(),
            match moved(presets_view(old(self).presets@), old(self).selected as int, index as int, up) {
                None => unchanged(*old(self), *final(self)),
                Some((p, sel)) => {
                    &&& presets_view(final(self).presets@) == p
                    &&& final(self).selected == sel
                    &&& final(self).persist
                    &&& unchanged(
                        *old(self),
                        Session {
                            presets: old(self).presets,
                            selected: old(self).selected,
                            persist: old(self).persist,
                            ..*final(self)
                        },
                    )
                },
            },
    {
        let target = if up {
            if index == 0 {
                return;
            }
            index - 1
        } else {
            index + 1
        };
        if target >= self.presets.len() || self.presets[target].builtin || self.presets[index].builtin {
            return;
        }
        let ghost old_p = presets_view(self.presets@);
        let a = self.presets[index].copy();
        let b = self.presets[target].copy();
        self.presets.set(index, b);
        self.presets.set(target, a);
        assert(presets_view(self.presets@) =~= old_p.update(index as int, old_p[target as int]).update(
            target as int,
            old_p[index as int],
        ));
        if self.selected == index {
            self.selected = target;
        } else if self.selected == target {
            self.selected = index;
        }
        self.persist = true;
    }
}


// ------------------------------------------------------------ undo

/// How many steps undo remembers.
pub const UNDO_LIMIT: usize = 64;

/// The abstract value of a snapshot.
pub struct SnapView {
    pub selected: usize,
    pub work: PresetView,
    pub slots: Seq<Option<SourceView>>,
}

pub open spec fn snap_view(s: Snapshot) -> SnapView {
    SnapView { selected: s.selected, work: s.work@, slots: slots_view(s.slots) }
}

pub open spec fn snaps_view(v: Seq<Snapshot>) -> Seq<SnapView> {
    v.map_values(|s: Snapshot| snap_view(s))
}

/// The snapshot of the current state.
pub open spec fn current_snap(s: Session) -> SnapView {
    SnapView { selected: s.selected, work: s.work@, slots: slots_view(s.slots) }
}

/// Two states count as one step of undo: the same preset selected, the same
/// settings and the same images.
pub open spec fn same_step(a: SnapView, b: SnapView) -> bool {
    &&& a.selected == b.selected
    &&& same_config(a.work, b.work)
    &&& a.work.alpha == b.work.alpha
    &&& forall|i: int| 0 <= i < 4 ==> id_of(#[trigger] a.slots[i]) == id_of(b.slots[i])
}

/// Two states are one step of undo exactly when the same preset is selected,
/// the working presets agree in name, engine, label, alpha and every setting
/// of every channel (role, source channel, inversion, fill, colour space and
/// suffixes), and each channel holds the same image or none in both. So a
/// change to any channel setting is a step of its own.
pub proof fn law_one_step_only_when_nothing_changed(a: SnapView, b: SnapView)
    ensures
        same_step(a, b) <==> {
            &&& a.selected == b.selected
            &&& a.work.name == b.work.name
            &&& a.work.engine == b.work.engine
            &&& a.work.label == b.work.label
            &&& a.work.alpha == b.work.alpha
            &&& a.work.slots.len() == b.work.slots.len()
            &&& forall|i: int|
                0 <= i < a.work.slots.len() ==> {
                    let (x, y) = (#[trigger] a.work.slots[i], b.work.slots[i]);
                    &&& x.role == y.role
                    &&& x.source == y.source
                    &&& x.invert == y.invert
                    &&& x.fill == y.fill
                    &&& x.srgb == y.srgb
                    &&& x.suffixes == y.suffixes
                }
            &&& forall|i: int| 0 <= i < 4 ==> id_of(#[trigger] a.slots[i]) == id_of(b.slots[i])
        },
{
    if a.work.slots.len() == b.work.slots.len() && forall|i: int|
        0 <= i < a.work.slots.len() ==> {
            let (x, y) = (#[trigger] a.work.slots[i], b.work.slots[i]);
            &&& x.role == y.role
            &&& x.source == y.source
            &&& x.invert == y.invert
            &&& x.fill == y.fill
            &&& x.srgb == y.srgb
            &&& x.suffixes == y.suffixes
        } {
        assert(a.work.slots =~= b.work.slots);
    }
}

fn same_ids(a: &[Option<SourceInfo>; 4], b: &[Option<SourceInfo>; 4]) -> (r: bool)
    ensures
        r == forall|i: int| 0 <= i < 4 ==> id_of(#[trigger] slots_view(*a)[i]) == id_of(slots_view(*b)[i]),
{
    let mut i: usize = 0;
    while i < 4
        invariant
            i <= 4,
            forall|k: int| 0 <= k < i ==> id_of(#[trigger] slots_view(*a)[k]) == id_of(slots_view(*b)[k]),
        decreases 4 - i,
    {
        let x = match &a[i] {
            Some(s) => Some(s.id),
            None => None,
        };
        let y = match &b[i] {
            Some(s) => Some(s.id),
            None => None,
        };
        assert(slots_view(*a)[i as int] == source_opt(a@[i as int]));
        assert(slots_view(*b)[i as int] == source_opt(b@[i as int]));
        let eq = match (x, y) {
            (Some(p), Some(q)) => p == q,
            (None, None) => true,
            _ => false,
        };
        if !eq {
            return false;
        }
        i += 1;
    }
    true
}

impl Snapshot {
    /// Whether two snapshots are one step of undo.
    pub fn same(&self, other: &Snapshot) -> (r: bool)
        ensures
            r == same_step(snap_view(*self), snap_view(*other)),
    {
        self.selected == other.selected && self.work.same_config(&other.work) && self.work.alpha
            == other.work.alpha && same_ids(&self.slots, &other.slots)
    }
}

/// `b` is `a` one step back (`back`) or forward: the state is the top of
/// the undo (or redo) stack, which is popped, and the state left is pushed
/// on the other stack.
pub open spec fn stepped(a: Session, b: Session, back: bool) -> bool {
    let (from, to) = if back {
        (snaps_view(a.undo@), snaps_view(a.redo@))
    } else {
        (snaps_view(a.redo@), snaps_view(a.undo@))
    };
    let (from2, to2) = if back {
        (snaps_view(b.undo@), snaps_view(b.redo@))
    } else {
        (snaps_view(b.redo@), snaps_view(b.undo@))
    };
    let target = from.last();
    &&& from2 == from.drop_last()
    &&& to2 == to.push(current_snap(a))
    &&& snap_view(b.settled) == target
    &&& b.work@ == target.work
    &&& slots_view(b.slots) == target.slots
    &&& b.selected == if target.selected < a.presets@.len() {
        target.selected
    } else {
        (a.presets@.len() - 1) as usize
    }
    &&& b.presets@ == a.presets@
    &&& unchanged(
        a,
        Session {
            selected: a.selected,
            work: a.work,
            slots: a.slots,
            undo: a.undo,
            redo: a.redo,
            settled: a.settled,
            ..b
        },
    )
}

/// Undo followed by redo puts back the state and both stacks, as long as the
/// preset the undone step had selected is still in the list.
pub proof fn law_undo_then_redo(s0: Session, s1: Session, s2: Session)
    requires
        s0.wf(),
        s0.undo@.len() > 0,
        snap_view(s0.undo@.last()).selected < s0.presets@.len(),
        stepped(s0, s1, true),
        s1.redo@.len() > 0,
        stepped(s1, s2, false),
    ensures
        current_snap(s2) == current_snap(s0),
        snaps_view(s2.undo@) == snaps_view(s0.undo@),
        snaps_view(s2.redo@) == snaps_view(s0.redo@),
{
    let u0 = snaps_view(s0.undo@);
    let r0 = snaps_view(s0.redo@);
    assert(snaps_view(s1.redo@).last() == current_snap(s0));
    assert(snaps_view(s1.redo@).last() == snap_view(s1.redo@.last()));
    assert(current_snap(s1) == u0.last());
    assert(u0.last() == snap_view(s0.undo@.last()));
    assert(snaps_view(s2.undo@) =~= u0.drop_last().push(u0.last()));
    assert(snaps_view(s2.redo@) =~= r0.push(current_snap(s0)).drop_last());
}

/// Redo followed by undo puts back the state and both stacks, as long as the
/// preset the redone step had selected is still in the list.
pub proof fn law_redo_then_undo(s0: Session, s1: Session, s2: Session)
    requires
        s0.wf(),
        s0.redo@.len() > 0,
        snap_view(s0.redo@.last()).selected < s0.presets@.len(),
        stepped(s0, s1, false),
        s1.undo@.len() > 0,
        stepped(s1, s2, true),
    ensures
        current_snap(s2) == current_snap(s0),
        snaps_view(s2.undo@) == snaps_view(s0.undo@),
        snaps_view(s2.redo@) == snaps_view(s0.redo@),
{
    let u0 = snaps_view(s0.undo@);
    let r0 = snaps_view(s0.redo@);
    assert(snaps_view(s1.undo@).last() == current_snap(s0));
    assert(snaps_view(s1.undo@).last() == snap_view(s1.undo@.last()));
    assert(current_snap(s1) == r0.last());
    assert(r0.last() == snap_view(s0.redo@.last()));
    assert(snaps_view(s2.redo@) =~= r0.drop_last().push(r0.last()));
    assert(snaps_view(s2.undo@) =~= u0.push(current_snap(s0)).drop_last());
}

impl Session {
    pub fn snapshot(&self) -> (r: Snapshot)
        ensures
            snap_view(r) == current_snap(*self),
    {
        Snapshot { selected: self.selected, work: self.work.copy(), slots: copy_slots(&self.slots) }
    }

    fn restore(&mut self, snap: &Snapshot)
        requires
            old(self).wf(),
        ensures
            final(self).wf(),
            final(self).selected == if snap.selected < old(self).presets@.len() {
                snap.selected
            } else {
                (old(self).presets@.len() - 1) as usize
            },
            final(self).work@ == snap.work@,
            slots_view(final(self).slots) == slots_view(snap.slots),
            unchanged(
                *old(self),
                Session {
                    selected: old(self).selected,
                    work: old(self).work,
                    slots: old(self).slots,
                    ..*final(self)
                },
            ),
    {
        let last = self.presets.len() - 1;
        self.selected = if snap.selected < last {
            snap.selected
        } else {
            last
        };
        self.work = snap.work.copy();
        self.slots = copy_slots(&snap.slots);
    }

    /// Record a step of undo once an edit is over: dragging a number or
    /// typing makes one step, not a hundred. `busy`: a button is held or a
    /// text field has the keyboard.
    pub fn settle(&mut self, busy: bool)
        ensures
            old(self).undo@.len() <= UNDO_LIMIT ==> final(self).undo@.len() <= UNDO_LIMIT,
            ({
                let now = current_snap(*old(self));
                let settled = snap_view(old(self).settled);
                if same_step(now, settled) || busy {
                    &&& snaps_view(final(self).undo@) == snaps_view(old(self).undo@)
                    &&& snaps_view(final(self).redo@) == snaps_view(old(self).redo@)
                    &&& snap_view(final(self).settled) == settled
                } else {
                    let pushed = snaps_view(old(self).undo@).push(settled);
                    &&& snaps_view(final(self).undo@) == if pushed.len() > UNDO_LIMIT {
                        pushed.drop_first()
                    } else {
                        pushed
                    }
                    &&& final(self).redo@.len() == 0
                    &&& snap_view(final(self).settled) == now
                }
            }),
            unchanged(
                *old(self),
                Session {
                    undo: old(self).undo,
                    redo: old(self).redo,
                    settled: old(self).settled,
                    ..*final(self)
                },
            ),
    {
        let now = self.snapshot();
        if now.same(&self.settled) || busy {
            return;
        }
        let mut prev = now;
        std::mem::swap(&mut self.settled, &mut prev);
        let ghost before = snaps_view(self.undo@);
        self.undo.push(prev);
        assert(snaps_view(self.undo@) =~= before.push(snap_view(old(self).settled)));
        if self.undo.len() > UNDO_LIMIT {
            let ghost full = snaps_view(self.undo@);
            self.undo.remove(0);
            assert(snaps_view(self.undo@) =~= full.drop_first());
        }
        self.redo.clear();
    }

    pub fn can_undo(&self) -> (r: bool)
        ensures
            r == (self.undo@.len() > 0),
    {
        self.undo.len() > 0
    }

    pub fn can_redo(&self) -> (r: bool)
        ensures
            r == (self.redo@.len() > 0),
    {
        self.redo.len() > 0
    }

    /// Go back one step; the state left can be redone.
    pub fn undo(&mut self)
        requires
            old(self).wf(),
        ensures
            final(self).wf(),
            old(self).undo@.len() == 0 ==> unchanged(*old(self), *final(self)),
            old(self).undo@.len() > 0 ==> stepped(*old(self), *final(self), true),
    {
        let prev = match self.undo.pop() {
            Some(p) => p,
            None => {
                return;
            },
        };
        let now = self.snapshot();
        let ghost before = snaps_view(self.redo@);
        self.redo.push(now);
        assert(snaps_view(self.redo@) =~= before.push(current_snap(*old(self))));
        self.restore(&prev);
        self.settled = prev;
        assert(snaps_view(self.undo@) =~= snaps_view(old(self).undo@).drop_last());
    }

    /// Go forward again one undone step.
    pub fn redo(&mut self)
        requires
            old(self).wf(),
        ensures
            final(self).wf(),
            old(self).redo@.len() == 0 ==> unchanged(*old(self), *final(self)),
            old(self).redo@.len() > 0 ==> stepped(*old(self), *final(self), false),
    {
        let next = match self.redo.pop() {
            Some(p) => p,
            None => {
                return;
            },
        };
        let now = self.snapshot();
        let ghost before = snaps_view(self.undo@);
        self.undo.push(now);
        assert(snaps_view(self.undo@) =~= before.push(current_snap(*old(self))));
        self.restore(&next);
        self.settled = next;
        assert(snaps_view(self.redo@) =~= snaps_view(old(self).redo@).drop_last());
    }
}


// ------------------------------------------------------------ placing images

/// The first channel of `chans` without an image.
pub open spec fn first_empty(slots: Seq<Option<SourceView>>, chans: Seq<Channel>) -> Option<Channel>
    decreases chans.len(),
{
    if chans.len() == 0 {
        None
    } else if slots[chans[0].idx() as int] is None {
        Some(chans[0])
    } else {
        first_empty(slots, chans.drop_first())
    }
}

/// `slots` with every image of id `gone` replaced by `src`.
pub open spec fn replaced(slots: Seq<Option<SourceView>>, gone: u64, src: SourceView) -> Seq<
    Option<SourceView>,
> {
    slots.map_values(
        |o: Option<SourceView>|
            if id_of(o) == Some(gone) {
                Some(src)
            } else {
                o
            },
    )
}

/// What loading images changes in a session: the working preset, the images
/// in the channels and the notices.
pub struct Board {
    pub work: PresetView,
    pub slots: Seq<Option<SourceView>>,
    pub notices: Seq<Note>,
}

pub open spec fn board(s: Session) -> Board {
    Board { work: s.work@, slots: slots_view(s.slots), notices: notices_view(s.notices@) }
}

/// `b` with one more notice.
pub open spec fn notify(b: Board, kind: ToastKind, text: Seq<char>) -> Board {
    Board { notices: b.notices.push((kind, text, None)), ..b }
}

/// A loaded image put where `target` says: into a channel (turning alpha on
/// for the alpha channel), by the suffix of its name (or, when it came alone,
/// into the first empty channel), in place of an image read again, or nowhere
/// (library only).
pub open spec fn placed(b: Board, src: SourceView, target: LoadTarget) -> Board {
    match target {
        LoadTarget::Slot(c) => Board {
            work: if c == Channel::A && !b.work.alpha {
                PresetView { alpha: true, ..b.work }
            } else {
                b.work
            },
            slots: b.slots.update(c.idx() as int, Some(src)),
            ..b
        },
        LoadTarget::Auto { single } => match suffix_match(stem_of(src.path), b.work) {
            Some(m) => Board { slots: b.slots.update(m.0.idx() as int, Some(src)), ..b },
            None => if !single {
                b
            } else {
                match first_empty(b.slots, channels_of(b.work.alpha)) {
                    Some(c) => Board { slots: b.slots.update(c.idx() as int, Some(src)), ..b },
                    None => notify(
                        b,
                        ToastKind::Info,
                        src.name + " added to the library — all channels are busy"@,
                    ),
                }
            },
        },
        LoadTarget::Library => b,
        LoadTarget::Replace(gone) => Board { slots: replaced(b.slots, gone, src), ..b },
    }
}

/// How many channels go into the file: three, or four with alpha.
pub open spec fn channel_count(alpha: bool) -> int {
    if alpha {
        4
    } else {
        3
    }
}

/// Where a loaded image goes. Into a chosen channel: that channel holds it,
/// whatever it held, and choosing alpha turns alpha on. By its suffix: the
/// channel the suffix names holds it, whatever it held. Alone and with no
/// suffix: the first empty channel of the file holds it, every channel
/// before being taken; with none empty the channels stay and a notice says
/// so. With others and no suffix, or to the library only: nothing changes.
/// In place of an image read again: every channel that held it holds the new
/// one. Channels not named keep what they held.
pub proof fn law_placed_where_it_belongs(b: Board, src: SourceView, target: LoadTarget)
    requires
        b.slots.len() == 4,
    ensures
        placed(b, src, target).slots.len() == 4,
        target matches LoadTarget::Slot(c) ==> {
            let r = placed(b, src, target);
            &&& r.slots[c.idx() as int] == Some(src)
            &&& forall|k: int| 0 <= k < 4 && k != c.idx() ==> #[trigger] r.slots[k] == b.slots[k]
            &&& r.work == (if c == Channel::A { PresetView { alpha: true, ..b.work } } else { b.work })
            &&& r.notices == b.notices
        },
        target is Auto && suffix_match(stem_of(src.path), b.work) is Some ==> {
            let r = placed(b, src, target);
            let c = suffix_match(stem_of(src.path), b.work)->Some_0.0.idx() as int;
            &&& r.slots[c] == Some(src)
            &&& forall|k: int| 0 <= k < 4 && k != c ==> #[trigger] r.slots[k] == b.slots[k]
            &&& r.work == b.work
            &&& r.notices == b.notices
        },
        target == (LoadTarget::Auto { single: true }) && suffix_match(stem_of(src.path), b.work) is None ==> {
            let r = placed(b, src, target);
            let n = channel_count(b.work.alpha);
            &&& r.work == b.work
            &&& (exists|c: int| 0 <= c < n && b.slots[c] is None) ==> exists|c: int|
                {
                    &&& 0 <= c < n
                    &&& b.slots[c] is None
                    &&& forall|k: int| 0 <= k < c ==> (#[trigger] b.slots[k]) is Some
                    &&& r.slots == b.slots.update(c, Some(src))
                    &&& r.notices == b.notices
                }
            &&& (forall|k: int| 0 <= k < n ==> (#[trigger] b.slots[k]) is Some) ==> {
                &&& r.slots == b.slots
                &&& r.notices.len() == b.notices.len() + 1
                &&& r.notices.drop_last() == b.notices
            }
        },
        target == (LoadTarget::Auto { single: false }) && suffix_match(stem_of(src.path), b.work) is None
            ==> placed(b, src, target) == b,
        target is Library ==> placed(b, src, target) == b,
        target matches LoadTarget::Replace(gone) ==> {
            let r = placed(b, src, target);
            &&& forall|k: int|
                0 <= k < 4 ==> #[trigger] r.slots[k] == if id_of(b.slots[k]) == Some(gone) {
                    Some(src)
                } else {
                    b.slots[k]
                }
            &&& r.work == b.work
            &&& r.notices == b.notices
        },
{
    reveal_with_fuel(first_empty, 5);
    let r = placed(b, src, target);
    if let Some(m) = suffix_match(stem_of(src.path), b.work) {
        assert(m.0.idx() < 4);
    }
    if target == (LoadTarget::Auto { single: true }) && suffix_match(stem_of(src.path), b.work) is None {
        let n = channel_count(b.work.alpha);
        let chans = channels_of(b.work.alpha);
        assert(chans.drop_first() =~= chans.subrange(1, chans.len() as int));
        if exists|c: int| 0 <= c < n && b.slots[c] is None {
            let c = if b.slots[0] is None {
                0
            } else if b.slots[1] is None {
                1
            } else if b.slots[2] is None {
                2
            } else {
                3
            };
            assert(first_empty(b.slots, chans) == Some(chans[c]));
            assert(chans[c].idx() == c);
            assert(r.slots == b.slots.update(c, Some(src)));
        } else {
            assert(b.slots[0] is Some && b.slots[1] is Some && b.slots[2] is Some);
            assert(first_empty(b.slots, chans) is None);
        }
    }
}

/// Nothing but the board has changed.
pub open spec fn keeps_rest(a: Session, b: Session) -> bool {
    unchanged(a, Session { slots: a.slots, work: a.work, notices: a.notices, ..b })
}

/// `b` is `a` with a loaded image put where `target` says.
pub open spec fn is_placed(a: Session, b: Session, src: SourceView, target: LoadTarget) -> bool {
    &&& keeps_rest(a, b)
    &&& board(b) == placed(board(a), src, target)
}

impl Session {
    fn first_empty_exec(&self) -> (r: Option<Channel>)
        ensures
            r == first_empty(slots_view(self.slots), channels_of(self.work.alpha)),
    {
        let chans = self.work.channels();
        let ghost v = slots_view(self.slots);
        let mut i: usize = 0;
        assert(chans@.skip(0) == chans@);
        while i < chans.len()
            invariant
                i <= chans.len(),
                chans@ == channels_of(self.work.alpha),
                v == slots_view(self.slots),
                first_empty(v, chans@) == first_empty(v, chans@.skip(i as int)),
            decreases chans.len() - i,
        {
            let c = chans[i];
            assert(chans@.skip(i as int)[0] == c);
            assert(chans@.skip(i as int).drop_first() == chans@.skip(i + 1));
            assert(v[c.idx() as int] == source_opt(self.slots@[c.idx() as int]));
            if self.slots[c.index()].is_none() {
                return Some(c);
            }
            i += 1;
        }
        assert(chans@.skip(chans.len() as int).len() == 0);
        None
    }

    /// Put a loaded image where `target` says.
    pub fn place(&mut self, src: &SourceInfo, target: LoadTarget)
        ensures
            is_placed(*old(self), *final(self), src@, target),
    {
        let ghost slots = slots_view(self.slots);
        match target {
            LoadTarget::Slot(channel) => {
                if channel == Channel::A && !self.work.alpha {
                    self.work.alpha = true;
                }
                self.slots[channel.index()] = Some(src.copy());
                assert(slots_view(self.slots) =~= slots.update(channel.idx() as int, Some(src@)));
            },
            LoadTarget::Auto { single } => {
                let stem = src.stem();
                match match_suffix(stem.as_str(), &self.work) {
                    Some(m) => {
                        self.slots[m.channel.index()] = Some(src.copy());
                        assert(slots_view(self.slots) =~= slots.update(
                            m.channel.idx() as int,
                            Some(src@),
                        ));
                    },
                    None => {
                        if single {
                            match self.first_empty_exec() {
                                Some(c) => {
                                    self.slots[c.index()] = Some(src.copy());
                                    assert(slots_view(self.slots) =~= slots.update(
                                        c.idx() as int,
                                        Some(src@),
                                    ));
                                },
                                None => {
                                    let mut text = chars_of(src.name.as_str());
                                    crate::text::append(
                                        &mut text,
                                        &chars_of(" added to the library — all channels are busy"),
                                    );
                                    let ghost before = notices_view(self.notices@);
                                    self.notices.push(
                                        Toast { kind: ToastKind::Info, text: string_of(text.as_slice()), reveal: None },
                                    );
                                    assert(notices_view(self.notices@) =~= before.push(
                                        (
                                            ToastKind::Info,
                                            src@.name
                                                + " added to the library — all channels are busy"@,
                                            None,
                                        ),
                                    ));
                                },
                            }
                        }
                    },
                }
            },
            LoadTarget::Library => {},
            LoadTarget::Replace(gone) => {
                let mut i: usize = 0;
                while i < 4
                    invariant
                        i <= 4,
                        slots == slots_view(old(self).slots),
                        forall|k: int|
                            0 <= k < i ==> #[trigger] slots_view(self.slots)[k] == (if id_of(slots[k])
                                == Some(gone) {
                                Some(src@)
                            } else {
                                slots[k]
                            }),
                        forall|k: int| i <= k < 4 ==> #[trigger] slots_view(self.slots)[k] == slots[k],
                        self.work == old(self).work,
                        self.notices == old(self).notices,
                        keeps_rest(*old(self), *self),
                    decreases 4 - i,
                {
                    let hit = match &self.slots[i] {
                        Some(s) => s.id == gone,
                        None => false,
                    };
                    let ghost before = slots_view(self.slots);
                    assert(before[i as int] == source_opt(self.slots@[i as int]));
                    assert(hit == (id_of(slots[i as int]) == Some(gone)));
                    if hit {
                        self.slots[i] = Some(src.copy());
                        assert(slots_view(self.slots) =~= before.update(i as int, Some(src@)));
                    }
                    i += 1;
                }
                assert(slots_view(self.slots) =~= replaced(slots, gone, src@));
            },
        }
    }
}

/// How many images the library keeps. Old unused ones drop out.
pub const LIBRARY_LIMIT: usize = 32;

/// `lib` without the images whose path is the same as `path`.
pub open spec fn without_path(lib: Seq<SourceView>, path: Seq<char>) -> Seq<SourceView>
    decreases lib.len(),
{
    if lib.len() == 0 {
        lib
    } else {
        let rest = without_path(lib.drop_last(), path);
        if paths_equal(lib.last().path, path) || eq_ignore_ascii_case(lib.last().path, path) {
            rest
        } else {
            rest.push(lib.last())
        }
    }
}

/// The image is in none of the channels.
pub open spec fn unused(slots: Seq<Option<SourceView>>, s: SourceView) -> bool {
    forall|i: int| 0 <= i < slots.len() ==> id_of(#[trigger] slots[i]) != Some(s.id)
}

/// The last image of the library that no channel uses.
pub open spec fn last_unused(lib: Seq<SourceView>, slots: Seq<Option<SourceView>>) -> Option<int>
    decreases lib.len(),
{
    if lib.len() == 0 {
        None
    } else if unused(slots, lib.last()) {
        Some(lib.len() - 1)
    } else {
        last_unused(lib.drop_last(), slots)
    }
}

pub proof fn lemma_last_unused(lib: Seq<SourceView>, slots: Seq<Option<SourceView>>)
    ensures
        last_unused(lib, slots) matches Some(i) ==> 0 <= i < lib.len() && unused(slots, lib[i]),
    decreases lib.len(),
{
    if lib.len() > 0 && !unused(slots, lib.last()) {
        lemma_last_unused(lib.drop_last(), slots);
    }
}

/// Unused images dropped from the end until the library fits its limit.
pub open spec fn evicted(lib: Seq<SourceView>, slots: Seq<Option<SourceView>>) -> Seq<SourceView>
    decreases lib.len(),
{
    if lib.len() <= LIBRARY_LIMIT {
        lib
    } else {
        match last_unused(lib, slots) {
            Some(i) => {
                proof {
                    lemma_last_unused(lib, slots);
                }
                evicted(lib.remove(i), slots)
            },
            None => lib,
        }
    }
}

/// Eviction drops only images that no channel shows: every image in use
/// stays in the library, and the library ends within its limit unless every
/// image left in it is in use.
pub proof fn law_eviction_keeps_used(lib: Seq<SourceView>, slots: Seq<Option<SourceView>>)
    ensures
        forall|k: int|
            0 <= k < lib.len() && !unused(slots, lib[k]) ==> evicted(lib, slots).contains(
                #[trigger] lib[k],
            ),
        evicted(lib, slots).len() <= LIBRARY_LIMIT || last_unused(evicted(lib, slots), slots) is None,
    decreases lib.len(),
{
    if lib.len() > LIBRARY_LIMIT {
        lemma_last_unused(lib, slots);
        if let Some(i) = last_unused(lib, slots) {
            let rest = lib.remove(i);
            law_eviction_keeps_used(rest, slots);
            assert forall|k: int| 0 <= k < lib.len() && !unused(slots, lib[k]) implies evicted(
                lib,
                slots,
            ).contains(#[trigger] lib[k]) by {
                if k < i {
                    assert(rest[k] == lib[k]);
                } else {
                    assert(k != i);
                    assert(rest[k - 1] == lib[k]);
                }
            }
        } else {
            assert forall|k: int| 0 <= k < lib.len() && !unused(slots, lib[k]) implies evicted(
                lib,
                slots,
            ).contains(#[trigger] lib[k]) by {
                assert(evicted(lib, slots)[k] == lib[k]);
            }
        }
    } else {
        assert forall|k: int| 0 <= k < lib.len() && !unused(slots, lib[k]) implies evicted(
            lib,
            slots,
        ).contains(#[trigger] lib[k]) by {
            assert(evicted(lib, slots)[k] == lib[k]);
        }
    }
}

/// The library after adding `src`: any image with the same path goes, `src`
/// comes first, and old unused images drop out past the limit.
pub open spec fn added(lib: Seq<SourceView>, slots: Seq<Option<SourceView>>, src: SourceView) -> Seq<
    SourceView,
> {
    evicted(seq![src] + without_path(lib, src.path), slots)
}

/// Whether a channel holds the image `s`.
fn is_used(slots: &[Option<SourceInfo>; 4], s: &SourceInfo) -> (r: bool)
    ensures
        r == !unused(slots_view(*slots), s@),
{
    let mut i: usize = 0;
    while i < 4
        invariant
            i <= 4,
            forall|k: int| 0 <= k < i ==> id_of(#[trigger] slots_view(*slots)[k]) != Some(s.id),
        decreases 4 - i,
    {
        assert(slots_view(*slots)[i as int] == source_opt(slots@[i as int]));
        match &slots[i] {
            Some(t) => {
                if t.id == s.id {
                    return true;
                }
            },
            None => {},
        }
        i += 1;
    }
    false
}

/// Drop the last unused image until the library fits its limit.
fn evict(lib: &mut Vec<SourceInfo>, slots: &[Option<SourceInfo>; 4])
    ensures
        library_view(final(lib)@) == evicted(library_view(old(lib)@), slots_view(*slots)),
{
    let ghost sv = slots_view(*slots);
    let ghost goal = evicted(library_view(lib@), sv);
    while lib.len() > LIBRARY_LIMIT
        invariant
            sv == slots_view(*slots),
            goal == evicted(library_view(old(lib)@), sv),
            evicted(library_view(lib@), sv) == goal,
        decreases lib.len(),
    {
        let ghost lv = library_view(lib@);
        let mut j = lib.len();
        assert(lv.take(j as int) =~= lv);
        while j > 0 && is_used(slots, &lib[j - 1])
            invariant
                j <= lib.len(),
                lv == library_view(lib@),
                sv == slots_view(*slots),
                last_unused(lv, sv) == last_unused(lv.take(j as int), sv),
            decreases j,
        {
            assert(lv.take(j as int).drop_last() =~= lv.take(j - 1));
            assert(lv.take(j as int).last() == lib@[j - 1]@);
            j -= 1;
        }
        if j == 0 {
            assert(lv.take(0).len() == 0);
            assert(last_unused(lv, sv) is None);
            assert(evicted(lv, sv) == lv);
            return;
        }
        assert(lv.take(j as int).last() == lib@[j - 1]@);
        assert(last_unused(lv, sv) == Some(j - 1));
        lib.remove(j - 1);
        assert(library_view(lib@) =~= lv.remove(j - 1));
    }
}

impl Session {
    /// Add a loaded image to the library, most recent first.
    pub fn add_to_library(&mut self, src: SourceInfo)
        ensures
            library_view(final(self).library@) == added(
                library_view(old(self).library@),
                slots_view(old(self).slots),
                src@,
            ),
            unchanged(*old(self), Session { library: old(self).library, ..*final(self) }),
    {
        let ghost lib0 = library_view(self.library@);
        let ghost path = src.path@;
        let mut kept: Vec<SourceInfo> = Vec::new();
        let mut i: usize = 0;
        while i < self.library.len()
            invariant
                i <= self.library.len(),
                lib0 == library_view(self.library@),
                path == src.path@,
                library_view(kept@) == without_path(lib0.take(i as int), path),
            decreases self.library.len() - i,
        {
            assert(lib0.take(i + 1).drop_last() == lib0.take(i as int));
            assert(lib0.take(i + 1).last() == self.library@[i as int]@);
            let ghost before = library_view(kept@);
            if !same_path(self.library[i].path.as_str(), src.path.as_str()) {
                kept.push(self.library[i].copy());
                assert(library_view(kept@) =~= before.push(self.library@[i as int]@));
            }
            i += 1;
        }
        assert(lib0.take(self.library.len() as int) == lib0);
        let ghost w = library_view(kept@);
        kept.insert(0, src);
        assert(library_view(kept@) =~= seq![src@] + w);
        evict(&mut kept, &self.slots);
        self.library = kept;
    }
}

} // verus!
