//! Writing the packed texture: the steps that decide, around the reading of
//! the disk and the packing itself.
use vstd::prelude::*;

use crate::batch::{Group, Job};
use crate::loading::{listed, present};
use crate::model::strings_view;
use crate::paths::{equal, paths_equal};
use crate::text::{decimal, decimal_chars};
use crate::model::channels_of;
use crate::naming::{NameParts, render, render_name};
use crate::paths::{join, opt_chars, path_join};
use crate::session::{
    Board, Session, Toast, basename_spec, board, keeps_rest, notices_view, notify, output_dir_of,
    sizes_of, slots_view, unchanged,
};
use crate::size::target_of;
use crate::state::{Dialog, ToastKind};
use crate::text::{append, chars_of, string_of};

verus! {

/// The name of the file written, with `date` for `{date}`.
pub open spec fn export_name(s: Session, date: Seq<char>) -> Seq<char> {
    render_name(
        s.output.template@,
        basename_spec(slots_view(s.slots), s.work@),
        s.work.name@,
        s.work.label@,
        date,
    ) + "."@ + s.output.format.extension_spec()
}

/// The size of the result.
pub open spec fn export_size(s: Session) -> Option<(u32, u32)> {
    target_of(sizes_of(slots_view(s.slots), channels_of(s.work.alpha)), s.output.policy, s.output.custom)
}

/// Why export cannot start, if it cannot.
pub open spec fn export_refusal(s: Session, exporting: bool) -> Option<Seq<char>> {
    if exporting {
        Some("Export in progress"@)
    } else if export_size(s) is None {
        Some("Assign at least one image, or set a custom size"@)
    } else if output_dir_of(opt_chars(s.output.folder), slots_view(s.slots)) is None {
        Some("Choose an output folder"@)
    } else {
        None
    }
}

/// The file written by a batch for a material, with `date` for `{date}`.
pub open spec fn batch_file(job: Job, base: Seq<char>, date: Seq<char>) -> Seq<char> {
    path_join(
        job.out_dir@,
        render_name(job.template@, base, job.preset.name@, job.preset.label@, date) + "."@
            + job.format.extension_spec(),
    )
}

/// Where a batch writes a material.
pub fn output_path(job: &Job, group: &Group, date: &str) -> (r: String)
    ensures
        r@ == batch_file(*job, group.base@, date@),
{
    let parts = NameParts {
        basename: group.base.as_str(),
        preset: job.preset.name.as_str(),
        label: job.preset.label.as_str(),
    };
    let name = render(job.template.as_str(), &parts, date);
    let mut v = chars_of(name.as_str());
    v.push('.');
    append(&mut v, &chars_of(job.format.extension()));
    proof {
        reveal_strlit(".");
    }
    let file = string_of(v.as_slice());
    assert(file@ =~= name@ + "."@ + job.format.extension_spec());
    join(job.out_dir.as_str(), file.as_str())
}

impl Session {
    /// What to write: the path, the file name and the size. When export
    /// cannot start, a notice says why and nothing is returned.
    pub fn export_target(&mut self, exporting: bool, date: &str) -> (r: Option<
        (String, String, (u32, u32)),
    >)
        ensures
            match export_refusal(*old(self), exporting) {
                Some(why) => {
                    &&& r is None
                    &&& board(*final(self)) == notify(board(*old(self)), ToastKind::Warning, why)
                    &&& keeps_rest(*old(self), *final(self))
                },
                None => {
                    &&& r matches Some(t) && {
                        &&& t.1@ == export_name(*old(self), date@)
                        &&& output_dir_of(opt_chars(old(self).output.folder), slots_view(old(self).slots))
                            matches Some(dir) && t.0@ == path_join(dir, t.1@)
                        &&& export_size(*old(self)) == Some(t.2)
                    }
                    &&& unchanged(*old(self), *final(self))
                },
            },
    {
        match self.can_export(exporting) {
            Err(why) => {
                self.toast(ToastKind::Warning, why.to_owned());
                None
            },
            Ok(()) => {
                let dir = match self.output_dir() {
                    Some(d) => d,
                    None => return None,
                };
                let size = match self.target_size() {
                    Some(s) => s,
                    None => return None,
                };
                let name = self.output_name(date);
                let path = join(dir.as_str(), name.as_str());
                Some((path, name, size))
            },
        }
    }

    /// Whether to write now: a file already there and not yet confirmed
    /// asks first.
    pub fn confirm_export(&mut self, path: String, on_disk: bool, confirmed: bool) -> (r: bool)
        ensures
            r == (!on_disk || confirmed),
            !r ==> (final(self).dialog matches Some(Dialog::Overwrite(p)) && p@ == path@),
            !r ==> unchanged(*old(self), Session { dialog: old(self).dialog, ..*final(self) }),
            r ==> unchanged(*old(self), *final(self)),
    {
        if on_disk && !confirmed {
            self.dialog = Some(Dialog::Overwrite(path));
            return false;
        }
        true
    }

    /// The export is over: a notice with the file written (which the last
    /// export now points to), or with the error.
    pub fn export_finished(&mut self, name: &String, result: Result<String, String>)
        ensures
            match result {
                Ok(path) => {
                    &&& board(*final(self)) == (Board {
                        notices: board(*old(self)).notices.push(
                            (ToastKind::Success, "Exported "@ + name@, Some(path@)),
                        ),
                        ..board(*old(self))
                    })
                    &&& opt_chars(final(self).last_export) == Some(path@)
                    &&& unchanged(
                        *old(self),
                        (Session {
                            notices: old(self).notices,
                            last_export: old(self).last_export,
                            ..*final(self)
                        }),
                    )
                },
                Err(e) => {
                    &&& board(*final(self)) == notify(board(*old(self)), ToastKind::Error, e@)
                    &&& keeps_rest(*old(self), *final(self))
                },
            },
    {
        match result {
            Ok(path) => {
                let mut t = chars_of("Exported ");
                append(&mut t, &chars_of(name.as_str()));
                let ghost before = notices_view(self.notices@);
                let ghost p = path@;
                let reveal = path.clone();
                self.notices.push(
                    Toast { kind: ToastKind::Success, text: string_of(t.as_slice()), reveal: Some(reveal) },
                );
                assert(notices_view(self.notices@) =~= before.push(
                    (ToastKind::Success, "Exported "@ + name@, Some(p)),
                ));
                self.last_export = Some(path);
            },
            Err(e) => {
                self.toast(ToastKind::Error, e);
            },
        }
    }
}

/// The files of a material, each once (a map in two channels is read once).
pub open spec fn distinct_files(files: Seq<Seq<char>>) -> Seq<Seq<char>>
    decreases files.len(),
{
    if files.len() == 0 {
        files
    } else {
        let rest = distinct_files(files.drop_last());
        if listed(rest, files.last()) {
            rest
        } else {
            rest.push(files.last())
        }
    }
}

/// The files a batch reads for a material, each once, in channel order.
pub fn group_files(group: &Group) -> (r: Vec<String>)
    ensures
        strings_view(r@) == distinct_files(present(group@.files)),
{
    let ghost fv = group@.files;
    let mut all: Vec<String> = Vec::new();
    let mut i: usize = 0;
    assert(fv.take(0).len() == 0);
    while i < 4
        invariant
            i <= 4,
            fv == group@.files,
            fv.len() == 4,
            strings_view(all@) == present(fv.take(i as int)),
        decreases 4 - i,
    {
        assert(fv.take(i + 1).drop_last() == fv.take(i as int));
        assert(fv.take(i + 1).last() == fv[i as int]);
        let ghost before = strings_view(all@);
        match &group.files[i] {
            Some(f) => {
                all.push(f.clone());
                assert(strings_view(all@) =~= before.push(f@));
            },
            None => {},
        }
        i += 1;
    }
    assert(fv.take(4) == fv);
    let ghost av = strings_view(all@);
    let mut r: Vec<String> = Vec::new();
    let mut k: usize = 0;
    assert(av.take(0).len() == 0);
    while k < all.len()
        invariant
            k <= all.len(),
            av == strings_view(all@),
            strings_view(r@) == distinct_files(av.take(k as int)),
        decreases all.len() - k,
    {
        assert(av.take(k + 1).drop_last() == av.take(k as int));
        assert(av.take(k + 1).last() == all@[k as int]@);
        let ghost before = strings_view(r@);
        let mut seen = false;
        let mut j: usize = 0;
        while j < r.len()
            invariant
                j <= r.len(),
                k < all.len(),
                before == strings_view(r@),
                seen <==> exists|m: int| 0 <= m < j && paths_equal(#[trigger] before[m], all@[k as int]@),
            decreases r.len() - j,
        {
            if equal(r[j].as_str(), all[k].as_str()) {
                assert(paths_equal(before[j as int], all@[k as int]@));
                seen = true;
            }
            j += 1;
        }
        if !seen {
            r.push(all[k].clone());
            assert(strings_view(r@) =~= before.push(all@[k as int]@));
        }
        k += 1;
    }
    assert(av.take(all.len() as int) == av);
    r
}

/// The log line for a material written.
pub open spec fn written_text(base: Seq<char>, name: Seq<char>, size: (u32, u32)) -> Seq<char> {
    base + " → "@ + name + " ("@ + decimal(size.0 as nat) + "×"@ + decimal(size.1 as nat) + ")"@
}

/// The log line for a material written.
pub fn written_line(base: &String, name: &String, size: (u32, u32)) -> (r: String)
    ensures
        r@ == written_text(base@, name@, size),
{
    let mut t = chars_of(base.as_str());
    append(&mut t, &chars_of(" → "));
    append(&mut t, &chars_of(name.as_str()));
    append(&mut t, &chars_of(" ("));
    append(&mut t, &decimal_chars(size.0 as u128));
    append(&mut t, &chars_of("×"));
    append(&mut t, &decimal_chars(size.1 as u128));
    append(&mut t, &chars_of(")"));
    string_of(t.as_slice())
}

/// The log line for a material whose file is already there.
pub open spec fn skipped_text(base: Seq<char>, name: Seq<char>) -> Seq<char> {
    base + ": "@ + name + " exists, skipped"@
}

/// The log line for a material whose file is already there.
pub fn skipped_line(base: &String, name: &String) -> (r: String)
    ensures
        r@ == skipped_text(base@, name@),
{
    let mut t = chars_of(base.as_str());
    append(&mut t, &chars_of(": "));
    append(&mut t, &chars_of(name.as_str()));
    append(&mut t, &chars_of(" exists, skipped"));
    string_of(t.as_slice())
}

/// The log line for a material that failed.
pub fn failed_line(base: &String, error: &String) -> (r: String)
    ensures
        r@ == base@ + ": "@ + error@,
{
    let mut t = chars_of(base.as_str());
    append(&mut t, &chars_of(": "));
    append(&mut t, &chars_of(error.as_str()));
    string_of(t.as_slice())
}

impl Job {
    /// A material whose file is already there is skipped, unless the job
    /// overwrites.
    pub fn skips(&self, on_disk: bool) -> (r: bool)
        ensures
            r == (on_disk && !self.overwrite),
    {
        on_disk && !self.overwrite
    }
}

} // verus!
