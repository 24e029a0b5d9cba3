//! Which files to read and where the images go: files already in the library
//! are placed at once, the others are read from disk and placed when they
//! come in.
use vstd::prelude::*;

use crate::batch::{Group, GroupView, PlanView, filled, filled_count, groups_view, is_plan, plan};
use crate::model::{Channel, Preset, channels_of, strings_view};
use crate::paths::{equal, paths_equal};
use crate::session::{
    Board, Session, SourceInfo, SourceView, board, keeps_rest, library_view, notify, placed,
    slots_view, source_opt, unchanged,
};
use crate::text::{append, chars_of, decimal, decimal_chars, string_of};
use crate::source::{is_image, is_image_path, same_file, same_path};
use crate::state::{LoadTarget, ToastKind};

verus! {

/// The paths that name images, in their order.
pub open spec fn images_of(paths: Seq<Seq<char>>) -> Seq<Seq<char>>
    decreases paths.len(),
{
    if paths.len() == 0 {
        paths
    } else {
        let rest = images_of(paths.drop_last());
        if is_image_path(paths.last()) {
            rest.push(paths.last())
        } else {
            rest
        }
    }
}

/// The first image of the library read from the same file.
pub open spec fn known(lib: Seq<SourceView>, path: Seq<char>) -> Option<SourceView>
    decreases lib.len(),
{
    if lib.len() == 0 {
        None
    } else if same_file(lib[0].path, path) {
        Some(lib[0])
    } else {
        known(lib.drop_first(), path)
    }
}

/// The board after opening `paths` (all images) one by one, and the paths
/// still to be read from disk.
pub open spec fn opened(b: Board, lib: Seq<SourceView>, paths: Seq<Seq<char>>, target: LoadTarget) -> (
    Board,
    Seq<Seq<char>>,
)
    decreases paths.len(),
{
    if paths.len() == 0 {
        (b, seq![])
    } else {
        let (b1, fresh) = opened(b, lib, paths.drop_last(), target);
        let p = paths.last();
        match known(lib, p) {
            Some(s) => match target {
                LoadTarget::Slot(_) => (placed(b1, s, target), fresh),
                LoadTarget::Auto { .. } => (placed(b1, s, target), fresh),
                LoadTarget::Library => (b1, fresh),
                LoadTarget::Replace(_) => (b1, fresh.push(p)),
            },
            None => (b1, fresh.push(p)),
        }
    }
}

/// The notice when none of the files is an image.
pub open spec fn no_images() -> Seq<char> {
    "No supported images (PNG, TGA, TIFF, JPG, BMP, EXR)"@
}

/// Opening `paths`: the board after it, and the paths to read from disk.
pub open spec fn open_outcome(
    b: Board,
    lib: Seq<SourceView>,
    paths: Seq<Seq<char>>,
    target: LoadTarget,
) -> (Board, Seq<Seq<char>>) {
    let imgs = images_of(paths);
    if imgs.len() == 0 {
        (notify(b, ToastKind::Warning, no_images()), seq![])
    } else {
        opened(b, lib, imgs, target)
    }
}

fn image_paths(paths: &Vec<String>) -> (r: Vec<String>)
    ensures
        strings_view(r@) == images_of(strings_view(paths@)),
{
    let ghost all = strings_view(paths@);
    let mut r: Vec<String> = Vec::new();
    let mut i: usize = 0;
    while i < paths.len()
        invariant
            i <= paths.len(),
            all == strings_view(paths@),
            strings_view(r@) == images_of(all.take(i as int)),
        decreases paths.len() - i,
    {
        assert(all.take(i + 1).drop_last() == all.take(i as int));
        assert(all.take(i + 1).last() == paths@[i as int]@);
        let ghost before = strings_view(r@);
        if is_image(paths[i].as_str()) {
            r.push(paths[i].clone());
            assert(strings_view(r@) =~= before.push(paths@[i as int]@));
        }
        i += 1;
    }
    assert(all.take(paths.len() as int) == all);
    r
}

impl Session {
    /// The image of the library read from the file at `path`, if any.
    fn known_image(&self, path: &str) -> (r: Option<SourceInfo>)
        ensures
            source_opt(r) == known(library_view(self.library@), path@),
    {
        let ghost lib = library_view(self.library@);
        let mut i: usize = 0;
        assert(lib.skip(0) == lib);
        while i < self.library.len()
            invariant
                i <= self.library.len(),
                lib == library_view(self.library@),
                known(lib, path@) == known(lib.skip(i as int), path@),
            decreases self.library.len() - i,
        {
            assert(lib.skip(i as int)[0] == self.library@[i as int]@);
            assert(lib.skip(i as int).drop_first() == lib.skip(i + 1));
            if same_path(self.library[i].path.as_str(), path) {
                return Some(self.library[i].copy());
            }
            i += 1;
        }
        assert(lib.skip(self.library.len() as int).len() == 0);
        None
    }

    /// Open image files: those already in the library are placed at once;
    /// the others come back, to be read from disk and placed as they come in.
    pub fn open_files(&mut self, paths: &Vec<String>, target: LoadTarget) -> (fresh: Vec<String>)
        ensures
            (board(*final(self)), strings_view(fresh@)) == open_outcome(
                board(*old(self)),
                library_view(old(self).library@),
                strings_view(paths@),
                target,
            ),
            keeps_rest(*old(self), *final(self)),
    {
        let imgs = image_paths(paths);
        let mut fresh: Vec<String> = Vec::new();
        if imgs.len() == 0 {
            self.toast(
                ToastKind::Warning,
                "No supported images (PNG, TGA, TIFF, JPG, BMP, EXR)".to_owned(),
            );
            return fresh;
        }
        let ghost lib = library_view(self.library@);
        let ghost b0 = board(*self);
        let ghost all = strings_view(imgs@);
        let mut j: usize = 0;
        assert(all.take(0) =~= Seq::<Seq<char>>::empty());
        while j < imgs.len()
            invariant
                j <= imgs.len(),
                all == strings_view(imgs@),
                lib == library_view(self.library@),
                (board(*self), strings_view(fresh@)) == opened(b0, lib, all.take(j as int), target),
                keeps_rest(*old(self), *self),
            decreases imgs.len() - j,
        {
            assert(all.take(j + 1).drop_last() == all.take(j as int));
            assert(all.take(j + 1).last() == imgs@[j as int]@);
            let ghost before = strings_view(fresh@);
            match self.known_image(imgs[j].as_str()) {
                Some(src) => match target {
                    LoadTarget::Slot(_) => self.place(&src, target),
                    LoadTarget::Auto { .. } => self.place(&src, target),
                    LoadTarget::Library => {},
                    LoadTarget::Replace(_) => {
                        fresh.push(imgs[j].clone());
                        assert(strings_view(fresh@) =~= before.push(imgs@[j as int]@));
                    },
                },
                None => {
                    fresh.push(imgs[j].clone());
                    assert(strings_view(fresh@) =~= before.push(imgs@[j as int]@));
                },
            }
            j += 1;
        }
        assert(all.take(imgs.len() as int) == all);
        fresh
    }
}

// ------------------------------------------------------------ a heap of files

/// The first material with the most channels filled.
pub open spec fn best_group(groups: Seq<GroupView>, chans: Seq<Channel>) -> Option<int>
    decreases groups.len(),
{
    if groups.len() == 0 {
        None
    } else {
        match best_group(groups.drop_last(), chans) {
            Some(i) => if filled_count(groups.last().files, chans) > filled_count(
                groups[i].files,
                chans,
            ) {
                Some(groups.len() - 1)
            } else {
                Some(i)
            },
            None => Some(groups.len() - 1),
        }
    }
}

/// Of several materials the one that goes into the channels is the fullest:
/// no material has more of the written channels filled, and every material
/// before it has fewer. There is such a material exactly when there is any.
pub proof fn law_fullest_material_chosen(groups: Seq<GroupView>, chans: Seq<Channel>)
    ensures
        best_group(groups, chans) is None <==> groups.len() == 0,
        best_group(groups, chans) matches Some(i) ==> {
            &&& 0 <= i < groups.len()
            &&& forall|k: int|
                0 <= k < groups.len() ==> filled_count((#[trigger] groups[k]).files, chans) <= filled_count(
                    groups[i].files,
                    chans,
                )
            &&& forall|k: int|
                0 <= k < i ==> filled_count((#[trigger] groups[k]).files, chans) < filled_count(
                    groups[i].files,
                    chans,
                )
        },
    decreases groups.len(),
{
    if groups.len() > 0 {
        let d = groups.drop_last();
        law_fullest_material_chosen(d, chans);
        assert forall|k: int| 0 <= k < d.len() implies #[trigger] d[k] == groups[k] by {}
        let n = groups.len() - 1;
        match best_group(d, chans) {
            None => {
                assert(d.len() == 0);
            },
            Some(j) => {
                let fj = filled_count(groups[j].files, chans);
                let fl = filled_count(groups[n].files, chans);
                if fl > fj {
                    assert(best_group(groups, chans) == Some(n));
                    assert forall|k: int| 0 <= k < groups.len() implies filled_count(
                        (#[trigger] groups[k]).files,
                        chans,
                    ) <= fl by {
                        if k < n {
                            assert(filled_count(d[k].files, chans) <= filled_count(d[j].files, chans));
                        }
                    }
                    assert forall|k: int| 0 <= k < n implies filled_count((#[trigger] groups[k]).files, chans)
                        < fl by {
                        assert(filled_count(d[k].files, chans) <= filled_count(d[j].files, chans));
                    }
                } else {
                    assert(best_group(groups, chans) == Some(j));
                    assert forall|k: int| 0 <= k < groups.len() implies filled_count(
                        (#[trigger] groups[k]).files,
                        chans,
                    ) <= fj by {
                        if k < n {
                            assert(filled_count(d[k].files, chans) <= filled_count(d[j].files, chans));
                        }
                    }
                    assert forall|k: int| 0 <= k < j implies filled_count((#[trigger] groups[k]).files, chans)
                        < fj by {
                        assert(filled_count(d[k].files, chans) < filled_count(d[j].files, chans));
                    }
                }
            },
        }
    }
}

pub proof fn lemma_best_group(groups: Seq<GroupView>, chans: Seq<Channel>)
    ensures
        best_group(groups, chans) matches Some(i) ==> 0 <= i < groups.len(),
        groups.len() > 0 ==> best_group(groups, chans) is Some,
    decreases groups.len(),
{
    if groups.len() > 0 {
        lemma_best_group(groups.drop_last(), chans);
    }
}

/// The files of a material, in channel order.
pub open spec fn present(files: Seq<Option<Seq<char>>>) -> Seq<Seq<char>>
    decreases files.len(),
{
    if files.len() == 0 {
        seq![]
    } else {
        let rest = present(files.drop_last());
        match files.last() {
            Some(f) => rest.push(f),
            None => rest,
        }
    }
}

/// `list` holds a path equal to `p`.
pub open spec fn listed(list: Seq<Seq<char>>, p: Seq<char>) -> bool {
    exists|k: int| 0 <= k < list.len() && paths_equal(#[trigger] list[k], p)
}

/// The files that `chosen` does not hold.
pub open spec fn outside(files: Seq<Seq<char>>, chosen: Seq<Seq<char>>) -> Seq<Seq<char>>
    decreases files.len(),
{
    if files.len() == 0 {
        files
    } else {
        let rest = outside(files.drop_last(), chosen);
        if listed(chosen, files.last()) {
            rest
        } else {
            rest.push(files.last())
        }
    }
}

/// A request to read `fresh` from disk for `target`, if there is anything to read.
pub open spec fn request(fresh: Seq<Seq<char>>, target: LoadTarget) -> Seq<
    (Seq<Seq<char>>, LoadTarget),
> {
    if fresh.len() == 0 {
        seq![]
    } else {
        seq![(fresh, target)]
    }
}

pub open spec fn requests_view(v: Seq<(Vec<String>, LoadTarget)>) -> Seq<
    (Seq<Seq<char>>, LoadTarget),
> {
    v.map_values(|r: (Vec<String>, LoadTarget)| (strings_view(r.0@), r.1))
}

/// The notice when no file matches the preset.
pub open spec fn no_match() -> Seq<char> {
    "No file names match this preset's suffixes — pick maps from the library on each card"@
}

/// The notice when other materials went to the library.
pub open spec fn loaded_text(base: Seq<char>, others: nat) -> Seq<char> {
    "Loaded “"@ + base + "”. "@ + decimal(others) + " more material"@ + (if others == 1 {
        ""@
    } else {
        "s"@
    }) + " went to the library — Batch mode packs them all at once."@
}

/// Opening several files with material `i` of the plan going into the
/// channels: its maps are read into the channels, the other files into the
/// library, and a notice names the material when others went to the library.
pub open spec fn material_outcome(
    b: Board,
    lib: Seq<SourceView>,
    files: Seq<Seq<char>>,
    p: PlanView,
    i: int,
) -> (Board, Seq<(Seq<Seq<char>>, LoadTarget)>) {
    let best = p.groups[i];
    let chosen = present(best.files);
    let rest = outside(files, chosen);
    let (b1, f1) = open_outcome(b, lib, chosen, LoadTarget::Auto { single: false });
    let (b2, f2) = if rest.len() > 0 {
        open_outcome(b1, lib, rest, LoadTarget::Library)
    } else {
        (b1, seq![])
    };
    let others = (p.groups.len() - 1) as nat;
    let b3 = if others > 0 {
        notify(b2, ToastKind::Info, loaded_text(best.base, others))
    } else {
        b2
    };
    (b3, request(f1, LoadTarget::Auto { single: false }) + request(f2, LoadTarget::Library))
}

/// Of several files opened at once, the material that goes into the
/// channels is one with the most written channels filled, the first such in
/// the plan: every material has at most as many filled, every earlier one
/// fewer.
pub proof fn law_open_paths_takes_fullest(b: Board, lib: Seq<SourceView>, files: Seq<Seq<char>>, p: PlanView)
    requires
        files.len() > 1,
        p.groups.len() > 0,
    ensures
        exists|i: int|
            {
                &&& 0 <= i < p.groups.len()
                &&& forall|k: int|
                    0 <= k < p.groups.len() ==> filled_count(
                        (#[trigger] p.groups[k]).files,
                        channels_of(b.work.alpha),
                    ) <= filled_count(p.groups[i].files, channels_of(b.work.alpha))
                &&& forall|k: int|
                    0 <= k < i ==> filled_count((#[trigger] p.groups[k]).files, channels_of(b.work.alpha))
                        < filled_count(p.groups[i].files, channels_of(b.work.alpha))
                &&& paths_outcome(b, lib, files, p) == material_outcome(b, lib, files, p, i)
            },
{
    law_fullest_material_chosen(p.groups, channels_of(b.work.alpha));
    let i = best_group(p.groups, channels_of(b.work.alpha))->Some_0;
    assert(paths_outcome(b, lib, files, p) == material_outcome(b, lib, files, p, i));
}

/// Opening a heap of files, sorted by `p` over the working preset: a single
/// file goes by its suffix or into the first empty channel; of several, the
/// material with the most maps goes into the channels and the rest into the
/// library.
pub open spec fn paths_outcome(b: Board, lib: Seq<SourceView>, files: Seq<Seq<char>>, p: PlanView) -> (
    Board,
    Seq<(Seq<Seq<char>>, LoadTarget)>,
) {
    if files.len() <= 1 {
        let (b1, f) = open_outcome(b, lib, files, LoadTarget::Auto { single: true });
        (b1, request(f, LoadTarget::Auto { single: true }))
    } else {
        match best_group(p.groups, channels_of(b.work.alpha)) {
            None => {
                let (b1, f) = open_outcome(b, lib, files, LoadTarget::Library);
                (notify(b1, ToastKind::Warning, no_match()), request(f, LoadTarget::Library))
            },
            Some(i) => material_outcome(b, lib, files, p, i),
        }
    }
}

/// `b` is `a` after opening `files`, with requests `r`, sorted by `p`.
pub open spec fn paths_opened(
    a: Session,
    b: Session,
    files: Seq<Seq<char>>,
    r: Seq<(Seq<Seq<char>>, LoadTarget)>,
    p: PlanView,
) -> bool {
    &&& files.len() <= 1 || is_plan(files, a.work@, p)
    &&& (board(b), r) == paths_outcome(board(a), library_view(a.library@), files, p)
}

pub open spec fn int_of(r: Option<usize>) -> Option<int> {
    match r {
        Some(i) => Some(i as int),
        None => None,
    }
}

fn best_index(groups: &Vec<Group>, preset: &Preset) -> (r: Option<usize>)
    ensures
        int_of(r) == best_group(groups_view(groups@), channels_of(preset.alpha)),
{
    let ghost gv = groups_view(groups@);
    let ghost chans = channels_of(preset.alpha);
    let mut best: Option<usize> = None;
    let mut most: usize = 0;
    let mut i: usize = 0;
    assert(gv.take(0).len() == 0);
    while i < groups.len()
        invariant
            i <= groups.len(),
            gv == groups_view(groups@),
            chans == channels_of(preset.alpha),
            int_of(best) == best_group(gv.take(i as int), chans),
            best matches Some(k) ==> k < i && most == filled_count(gv[k as int].files, chans),
        decreases groups.len() - i,
    {
        let ghost t = gv.take(i + 1);
        assert(t.drop_last() == gv.take(i as int));
        assert(t.last() == groups@[i as int]@);
        let n = filled(&groups[i], preset);
        match best {
            Some(k) => {
                assert(t[k as int] == gv[k as int]);
                if n > most {
                    best = Some(i);
                    most = n;
                }
            },
            None => {
                best = Some(i);
                most = n;
            },
        }
        i += 1;
    }
    assert(gv.take(groups.len() as int) == gv);
    best
}

fn present_files(g: &Group) -> (r: Vec<String>)
    ensures
        strings_view(r@) == present(g@.files),
{
    let ghost fv = g@.files;
    let mut r: Vec<String> = Vec::new();
    let mut i: usize = 0;
    assert(fv.take(0).len() == 0);
    while i < 4
        invariant
            i <= 4,
            fv == g@.files,
            fv.len() == 4,
            strings_view(r@) == present(fv.take(i as int)),
        decreases 4 - i,
    {
        assert(fv.take(i + 1).drop_last() == fv.take(i as int));
        assert(fv.take(i + 1).last() == fv[i as int]);
        let ghost before = strings_view(r@);
        match &g.files[i] {
            Some(f) => {
                r.push(f.clone());
                assert(strings_view(r@) =~= before.push(f@));
            },
            None => {},
        }
        i += 1;
    }
    assert(fv.take(4) == fv);
    r
}

fn is_listed(list: &Vec<String>, p: &String) -> (r: bool)
    ensures
        r == listed(strings_view(list@), p@),
{
    let ghost lv = strings_view(list@);
    let mut k: usize = 0;
    while k < list.len()
        invariant
            k <= list.len(),
            lv == strings_view(list@),
            forall|j: int| 0 <= j < k ==> !paths_equal(#[trigger] lv[j], p@),
        decreases list.len() - k,
    {
        if equal(list[k].as_str(), p.as_str()) {
            assert(paths_equal(lv[k as int], p@));
            return true;
        }
        k += 1;
    }
    false
}

fn outside_files(files: &Vec<String>, chosen: &Vec<String>) -> (r: Vec<String>)
    ensures
        strings_view(r@) == outside(strings_view(files@), strings_view(chosen@)),
{
    let ghost fv = strings_view(files@);
    let ghost cv = strings_view(chosen@);
    let mut r: Vec<String> = Vec::new();
    let mut i: usize = 0;
    assert(fv.take(0).len() == 0);
    while i < files.len()
        invariant
            i <= files.len(),
            fv == strings_view(files@),
            cv == strings_view(chosen@),
            strings_view(r@) == outside(fv.take(i as int), cv),
        decreases files.len() - i,
    {
        assert(fv.take(i + 1).drop_last() == fv.take(i as int));
        assert(fv.take(i + 1).last() == files@[i as int]@);
        let ghost before = strings_view(r@);
        if !is_listed(chosen, &files[i]) {
            r.push(files[i].clone());
            assert(strings_view(r@) =~= before.push(files@[i as int]@));
        }
        i += 1;
    }
    assert(fv.take(files.len() as int) == fv);
    r
}

fn loaded_message(base: &String, others: usize) -> (r: String)
    ensures
        r@ == loaded_text(base@, others as nat),
{
    let mut t = chars_of("Loaded “");
    append(&mut t, &chars_of(base.as_str()));
    append(&mut t, &chars_of("”. "));
    append(&mut t, &decimal_chars(others as u128));
    append(&mut t, &chars_of(" more material"));
    let ghost head = t@;
    let ghost plural = if others == 1 {
        ""@
    } else {
        "s"@
    };
    if others != 1 {
        append(&mut t, &chars_of("s"));
    } else {
        proof {
            reveal_strlit("");
        }
        assert(head + plural =~= head);
    }
    assert(t@ == head + plural);
    append(&mut t, &chars_of(" went to the library — Batch mode packs them all at once."));
    string_of(t.as_slice())
}

fn push_request(r: &mut Vec<(Vec<String>, LoadTarget)>, fresh: Vec<String>, target: LoadTarget)
    ensures
        requests_view(final(r)@) == requests_view(old(r)@) + request(strings_view(fresh@), target),
{
    let ghost before = requests_view(r@);
    let ghost f = strings_view(fresh@);
    if fresh.len() > 0 {
        r.push((fresh, target));
        assert(requests_view(r@) =~= before + seq![(f, target)]);
    } else {
        assert(requests_view(r@) =~= before + request(f, target));
    }
}

impl Session {
    /// Open files and folders (already expanded into files): one file goes by
    /// its suffix, or into the first empty channel; of several, the material
    /// with the most maps goes into the channels and the others into the
    /// library. Returns what to read from disk, and where it goes.
    pub fn open_paths(&mut self, files: &Vec<String>) -> (r: Vec<(Vec<String>, LoadTarget)>)
        ensures
            exists|p: PlanView|
                paths_opened(*old(self), *final(self), strings_view(files@), requests_view(r@), p),
            keeps_rest(*old(self), *final(self)),
    {
        let ghost fv = strings_view(files@);
        let ghost lib = library_view(self.library@);
        let ghost b0 = board(*self);
        let mut r: Vec<(Vec<String>, LoadTarget)> = Vec::new();
        let ghost empty = PlanView { groups: seq![], unmatched: seq![], conflicts: seq![] };
        if files.len() <= 1 {
            let fresh = self.open_files(files, LoadTarget::Auto { single: true });
            push_request(&mut r, fresh, LoadTarget::Auto { single: true });
            assert(paths_opened(*old(self), *self, fv, requests_view(r@), empty));
            return r;
        }
        let p = plan(files.as_slice(), &self.work);
        assert(crate::batch::strings_of(files@) =~= fv);
        let ghost pv = p@;
        match best_index(&p.groups, &self.work) {
            None => {
                let fresh = self.open_files(files, LoadTarget::Library);
                self.toast(
                    ToastKind::Warning,
                    "No file names match this preset's suffixes — pick maps from the library on each card".to_owned(),
                );
                push_request(&mut r, fresh, LoadTarget::Library);
            },
            Some(i) => {
                proof {
                    lemma_best_group(pv.groups, channels_of(old(self).work.alpha));
                }
                let chosen = present_files(&p.groups[i]);
                let rest = outside_files(files, &chosen);
                let others = p.groups.len() - 1;
                let f1 = self.open_files(&chosen, LoadTarget::Auto { single: false });
                push_request(&mut r, f1, LoadTarget::Auto { single: false });
                if rest.len() > 0 {
                    let f2 = self.open_files(&rest, LoadTarget::Library);
                    push_request(&mut r, f2, LoadTarget::Library);
                } else {
                    assert(requests_view(r@) =~= requests_view(r@) + request(seq![], LoadTarget::Library));
                }
                if others > 0 {
                    self.toast(ToastKind::Info, loaded_message(&p.groups[i].base, others));
                }
            },
        }
        assert(paths_opened(*old(self), *self, fv, requests_view(r@), pv));
        r
    }
}

// ------------------------------------------------------------ reading again

/// `v` holds an image with this id.
pub open spec fn has_id(v: Seq<SourceView>, id: u64) -> bool {
    exists|k: int| 0 <= k < v.len() && (#[trigger] v[k]).id == id
}

/// The images in the channels, each once, in channel order.
pub open spec fn distinct_sources(slots: Seq<Option<SourceView>>) -> Seq<SourceView>
    decreases slots.len(),
{
    if slots.len() == 0 {
        seq![]
    } else {
        let rest = distinct_sources(slots.drop_last());
        match slots.last() {
            Some(s) => if has_id(rest, s.id) {
                rest
            } else {
                rest.push(s)
            },
            None => rest,
        }
    }
}

/// `lib` without the images of this id.
pub open spec fn without_id(lib: Seq<SourceView>, id: u64) -> Seq<SourceView>
    decreases lib.len(),
{
    if lib.len() == 0 {
        lib
    } else {
        let rest = without_id(lib.drop_last(), id);
        if lib.last().id == id {
            rest
        } else {
            rest.push(lib.last())
        }
    }
}

/// Reading `srcs` again one by one: each leaves the library and its file is
/// asked for again, to replace it wherever it is.
pub open spec fn reloaded(b: Board, lib: Seq<SourceView>, srcs: Seq<SourceView>) -> (
    Board,
    Seq<SourceView>,
    Seq<(Seq<Seq<char>>, LoadTarget)>,
)
    decreases srcs.len(),
{
    if srcs.len() == 0 {
        (b, lib, seq![])
    } else {
        let (b1, lib1, reqs) = reloaded(b, lib, srcs.drop_last());
        let s = srcs.last();
        let lib2 = without_id(lib1, s.id);
        let (b2, fresh) = open_outcome(b1, lib2, seq![s.path], LoadTarget::Replace(s.id));
        (b2, lib2, reqs + request(fresh, LoadTarget::Replace(s.id)))
    }
}

fn has_id_exec(v: &Vec<SourceInfo>, id: u64) -> (r: bool)
    ensures
        r == has_id(library_view(v@), id),
{
    let ghost lv = library_view(v@);
    let mut k: usize = 0;
    while k < v.len()
        invariant
            k <= v.len(),
            lv == library_view(v@),
            forall|j: int| 0 <= j < k ==> (#[trigger] lv[j]).id != id,
        decreases v.len() - k,
    {
        assert(lv[k as int] == v@[k as int]@);
        if v[k].id == id {
            return true;
        }
        k += 1;
    }
    false
}

fn distinct_exec(slots: &[Option<SourceInfo>; 4]) -> (r: Vec<SourceInfo>)
    ensures
        library_view(r@) == distinct_sources(slots_view(*slots)),
{
    let ghost sv = slots_view(*slots);
    let mut r: Vec<SourceInfo> = Vec::new();
    let mut i: usize = 0;
    assert(sv.take(0).len() == 0);
    while i < 4
        invariant
            i <= 4,
            sv == slots_view(*slots),
            sv.len() == 4,
            library_view(r@) == distinct_sources(sv.take(i as int)),
        decreases 4 - i,
    {
        assert(sv.take(i + 1).drop_last() == sv.take(i as int));
        assert(sv.take(i + 1).last() == source_opt(slots@[i as int]));
        let ghost before = library_view(r@);
        match &slots[i] {
            Some(s) => {
                if !has_id_exec(&r, s.id) {
                    r.push(s.copy());
                    assert(library_view(r@) =~= before.push(s@));
                }
            },
            None => {},
        }
        i += 1;
    }
    assert(sv.take(4) == sv);
    r
}

fn drop_id(lib: &Vec<SourceInfo>, id: u64) -> (r: Vec<SourceInfo>)
    ensures
        library_view(r@) == without_id(library_view(lib@), id),
{
    let ghost lv = library_view(lib@);
    let mut r: Vec<SourceInfo> = Vec::new();
    let mut i: usize = 0;
    assert(lv.take(0).len() == 0);
    while i < lib.len()
        invariant
            i <= lib.len(),
            lv == library_view(lib@),
            library_view(r@) == without_id(lv.take(i as int), id),
        decreases lib.len() - i,
    {
        assert(lv.take(i + 1).drop_last() == lv.take(i as int));
        assert(lv.take(i + 1).last() == lib@[i as int]@);
        let ghost before = library_view(r@);
        if lib[i].id != id {
            r.push(lib[i].copy());
            assert(library_view(r@) =~= before.push(lib@[i as int]@));
        }
        i += 1;
    }
    assert(lv.take(lib.len() as int) == lv);
    r
}

impl Session {
    /// Read again from disk every image in the channels (the artist has
    /// touched up a map and wants to see it). Returns what to read, and which
    /// image each file replaces.
    pub fn reload_sources(&mut self) -> (r: Vec<(Vec<String>, LoadTarget)>)
        ensures
            ({
                let srcs = distinct_sources(slots_view(old(self).slots));
                if srcs.len() == 0 {
                    &&& unchanged(*old(self), *final(self))
                    &&& r@.len() == 0
                } else {
                    let (b, lib, reqs) = reloaded(
                        board(*old(self)),
                        library_view(old(self).library@),
                        srcs,
                    );
                    &&& board(*final(self)) == notify(
                        b,
                        ToastKind::Info,
                        "Reloading sources from disk…"@,
                    )
                    &&& library_view(final(self).library@) == lib
                    &&& requests_view(r@) == reqs
                    &&& unchanged(
                        *old(self),
                        Session {
                            library: old(self).library,
                            slots: old(self).slots,
                            work: old(self).work,
                            notices: old(self).notices,
                            ..*final(self)
                        },
                    )
                }
            }),
    {
        let srcs = distinct_exec(&self.slots);
        let mut r: Vec<(Vec<String>, LoadTarget)> = Vec::new();
        if srcs.len() == 0 {
            return r;
        }
        let ghost sv = library_view(srcs@);
        let ghost b0 = board(*self);
        let ghost lib0 = library_view(self.library@);
        let mut i: usize = 0;
        assert(sv.take(0).len() == 0);
        while i < srcs.len()
            invariant
                i <= srcs.len(),
                sv == library_view(srcs@),
                (board(*self), library_view(self.library@), requests_view(r@)) == reloaded(
                    b0,
                    lib0,
                    sv.take(i as int),
                ),
                unchanged(
                    *old(self),
                    Session {
                        library: old(self).library,
                        slots: old(self).slots,
                        work: old(self).work,
                        notices: old(self).notices,
                        ..*self
                    },
                ),
            decreases srcs.len() - i,
        {
            assert(sv.take(i + 1).drop_last() == sv.take(i as int));
            assert(sv.take(i + 1).last() == srcs@[i as int]@);
            let id = srcs[i].id;
            self.library = drop_id(&self.library, id);
            let mut one: Vec<String> = Vec::new();
            one.push(srcs[i].path.clone());
            assert(strings_view(one@) =~= seq![srcs@[i as int]@.path]);
            let fresh = self.open_files(&one, LoadTarget::Replace(id));
            push_request(&mut r, fresh, LoadTarget::Replace(id));
            i += 1;
        }
        assert(sv.take(srcs.len() as int) == sv);
        self.toast(ToastKind::Info, "Reloading sources from disk…".to_owned());
        r
    }
}

} // verus!
