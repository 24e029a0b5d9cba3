//! The batch tab: the files, the materials switched on, and what a run
//! reports back.
use vstd::prelude::*;

use crate::batch::{
    Event, Group, GroupView, Job, LogLevel, copy_group, deduped, filled, filled_count,
    groups_view, is_plan, plan, sorted_paths, sorted_unique, strictly_sorted, strings_of,
};
use crate::model::{Preset, PresetView, SlotView, channels_of, copy_strings, same_strings, strings_view};
use crate::paths::{join, opt_chars, parent, path_join, path_parent};
use crate::session::{
    Board, Note, Session, Toast, board, keeps_rest, notices_view, notify, unchanged,
};
use crate::state::{BatchRun, BatchState, ToastKind};
use crate::text::{append, chars_of, decimal, decimal_chars, lowercase, string_of, to_lowercase};

verus! {

/// What a plan is made for: the suffixes of each channel, whether alpha is
/// written, and how many files there are.
pub open spec fn plan_key_of(work: PresetView, n: nat) -> (Seq<Seq<Seq<char>>>, bool, nat) {
    (work.slots.map_values(|s: SlotView| s.suffixes), work.alpha, n)
}

pub open spec fn key_view(k: Option<(Vec<Vec<String>>, bool, usize)>) -> Option<
    (Seq<Seq<Seq<char>>>, bool, nat),
> {
    match k {
        Some(t) => Some((t.0@.map_values(|v: Vec<String>| strings_view(v@)), t.1, t.2 as nat)),
        None => None,
    }
}

/// The materials that are switched on and have at least one map.
pub open spec fn enabled_groups(
    groups: Seq<GroupView>,
    disabled: Seq<Seq<char>>,
    chans: Seq<crate::model::Channel>,
) -> Seq<GroupView>
    decreases groups.len(),
{
    if groups.len() == 0 {
        groups
    } else {
        let rest = enabled_groups(groups.drop_last(), disabled, chans);
        let g = groups.last();
        if !disabled.contains(lowercase(g.base)) && filled_count(g.files, chans) > 0 {
            rest.push(g)
        } else {
            rest
        }
    }
}

/// Where a batch writes: the chosen folder, or `packed` beside the first file.
pub open spec fn batch_dir(folder: Option<Seq<char>>, files: Seq<Seq<char>>) -> Option<Seq<char>> {
    match folder {
        Some(f) => Some(f),
        None => if files.len() > 0 {
            match path_parent(files[0]) {
                Some(d) => Some(path_join(d, "packed"@)),
                None => None,
            }
        } else {
            None
        },
    }
}

/// The first log line of a run.
pub open spec fn packing_text(n: nat, dir: Seq<char>) -> Seq<char> {
    "Packing "@ + decimal(n) + " materials into "@ + dir
}

/// Where `key` first occurs in `st`.
pub open spec fn key_index(st: Seq<(Seq<char>, bool)>, key: Seq<char>) -> Option<int>
    decreases st.len(),
{
    if st.len() == 0 {
        None
    } else if st[0].0 == key {
        Some(0)
    } else {
        match key_index(st.drop_first(), key) {
            Some(i) => Some(i + 1),
            None => None,
        }
    }
}

pub proof fn lemma_key_index(st: Seq<(Seq<char>, bool)>, key: Seq<char>)
    ensures
        key_index(st, key) matches Some(i) ==> {
            &&& 0 <= i < st.len()
            &&& st[i].0 == key
            &&& forall|k: int| 0 <= k < i ==> (#[trigger] st[k]).0 != key
        },
        key_index(st, key) is None ==> forall|k: int| 0 <= k < st.len() ==> (#[trigger] st[k]).0 != key,
    decreases st.len(),
{
    if st.len() > 0 {
        lemma_key_index(st.drop_first(), key);
        assert forall|k: int| 1 <= k < st.len() implies #[trigger] st[k] == st.drop_first()[k - 1] by {}
    }
}

/// `st` with `key` set to `ok`, as a map by key.
pub open spec fn put(st: Seq<(Seq<char>, bool)>, key: Seq<char>, ok: bool) -> Seq<(Seq<char>, bool)> {
    match key_index(st, key) {
        Some(i) => st.update(i, (key, ok)),
        None => st.push((key, ok)),
    }
}

/// How many materials failed.
pub open spec fn failures(st: Seq<(Seq<char>, bool)>) -> nat
    decreases st.len(),
{
    if st.len() == 0 {
        0
    } else {
        failures(st.drop_last()) + if st.last().1 {
            0nat
        } else {
            1nat
        }
    }
}

/// The notice at the end of a run.
pub open spec fn finished_note(failed: nat, done: nat, dir: Option<Seq<char>>) -> Note {
    if failed == 0 {
        (ToastKind::Success, "Batch finished: "@ + decimal(done) + " materials"@, dir)
    } else {
        (ToastKind::Warning, "Batch finished: "@ + decimal(failed) + " of "@ + decimal(done)
            + " failed"@, dir)
    }
}

pub open spec fn status_view(v: Seq<(String, bool)>) -> Seq<(Seq<char>, bool)> {
    v.map_values(|p: (String, bool)| (p.0@, p.1))
}

pub open spec fn log_view(v: Seq<(LogLevel, String)>) -> Seq<(LogLevel, Seq<char>)> {
    v.map_values(|p: (LogLevel, String)| (p.0, p.1@))
}

/// Only the batch tab has changed, and of it only what `same` keeps apart.
pub open spec fn only_batch(a: Session, b: Session) -> bool {
    unchanged(a, Session { batch: a.batch, ..b })
}

fn put_status(st: &mut Vec<(String, bool)>, key: String, ok: bool)
    ensures
        status_view(final(st)@) == put(status_view(old(st)@), key@, ok),
{
    let ghost sv = status_view(st@);
    proof {
        lemma_key_index(sv, key@);
    }
    let mut i: usize = 0;
    while i < st.len()
        invariant
            i <= st.len(),
            sv == status_view(st@),
            sv == status_view(old(st)@),
            key_index(sv, key@) matches Some(j) ==> j >= i,
            forall|k: int| 0 <= k < i ==> (#[trigger] sv[k]).0 != key@,
        decreases st.len() - i,
    {
        proof {
            lemma_key_index(sv, key@);
        }
        if same_strings_of(&st[i].0, &key) {
            assert(sv[i as int].0 == key@);
            assert(key_index(sv, key@) == Some(i as int));
            st.set(i, (key, ok));
            assert(status_view(st@) =~= sv.update(i as int, (key@, ok)));
            return;
        }
        assert(sv[i as int].0 != key@);
        i += 1;
    }
    let ghost t = key@;
    proof {
        lemma_key_index(sv, key@);
    }
    st.push((key, ok));
    assert(status_view(st@) =~= sv.push((t, ok)));
}

fn same_strings_of(a: &String, b: &String) -> (r: bool)
    ensures
        r == (a@ == b@),
{
    let x = chars_of(a.as_str());
    let y = chars_of(b.as_str());
    crate::text::same_chars(&x, &y)
}

fn count_failures(st: &Vec<(String, bool)>) -> (n: usize)
    ensures
        n == failures(status_view(st@)),
        n <= st.len(),
{
    let ghost sv = status_view(st@);
    let mut n: usize = 0;
    let mut i: usize = 0;
    assert(sv.take(0).len() == 0);
    while i < st.len()
        invariant
            i <= st.len(),
            sv == status_view(st@),
            n == failures(sv.take(i as int)),
            n <= i,
        decreases st.len() - i,
    {
        assert(sv.take(i + 1).drop_last() == sv.take(i as int));
        assert(sv.take(i + 1).last() == sv[i as int]);
        if !st[i].1 {
            n += 1;
        }
        i += 1;
    }
    assert(sv.take(st.len() as int) == sv);
    n
}

fn contains_string(v: &Vec<String>, s: &String) -> (r: bool)
    ensures
        r == strings_view(v@).contains(s@),
{
    let ghost sv = strings_view(v@);
    let mut i: usize = 0;
    while i < v.len()
        invariant
            i <= v.len(),
            sv == strings_view(v@),
            forall|k: int| 0 <= k < i ==> sv[k] != s@,
        decreases v.len() - i,
    {
        if same_strings_of(&v[i], s) {
            assert(sv[i as int] == s@);
            return true;
        }
        i += 1;
    }
    false
}

fn finished_text(failed: usize, done: usize) -> (r: (ToastKind, String))
    ensures
        r.0 == finished_note(failed as nat, done as nat, None).0,
        r.1@ == finished_note(failed as nat, done as nat, None).1,
{
    let mut t = chars_of("Batch finished: ");
    if failed == 0 {
        append(&mut t, &decimal_chars(done as u128));
        append(&mut t, &chars_of(" materials"));
        (ToastKind::Success, string_of(t.as_slice()))
    } else {
        append(&mut t, &decimal_chars(failed as u128));
        append(&mut t, &chars_of(" of "));
        append(&mut t, &decimal_chars(done as u128));
        append(&mut t, &chars_of(" failed"));
        (ToastKind::Warning, string_of(t.as_slice()))
    }
}

impl Session {
    /// Add files (folders already expanded) to the batch. The list stays
    /// sorted, each file once; a notice says when nothing was new.
    pub fn batch_add(&mut self, files: &Vec<String>)
        ensures
            strings_view(final(self).batch.files@) == deduped(
                sorted_paths(strings_view(old(self).batch.files@) + strings_view(files@)),
            ),
            strictly_sorted(strings_view(final(self).batch.files@)),
            final(self).batch.plan_key is None,
            final(self).batch == (BatchState {
                files: final(self).batch.files,
                plan_key: None,
                ..old(self).batch
            }),
            board(*final(self)) == (if final(self).batch.files@.len() <= old(
                self,
            ).batch.files@.len() {
                notify(board(*old(self)), ToastKind::Info, "No new images found"@)
            } else {
                board(*old(self))
            }),
            unchanged(
                *old(self),
                (Session { batch: old(self).batch, notices: old(self).notices, ..*final(self) }),
            ),
    {
        let before = self.batch.files.len();
        let mut all = copy_strings(&self.batch.files);
        let ghost a = strings_view(all@);
        let mut more = copy_strings(files);
        all.append(&mut more);
        assert(strings_view(all@) =~= a + strings_view(files@));
        self.batch.files = sorted_unique(&all);
        self.batch.plan_key = None;
        if self.batch.files.len() <= before {
            self.toast(ToastKind::Info, "No new images found".to_owned());
        }
    }

    /// Sort the files into materials again, if the files or the suffixes
    /// have changed since the plan was made.
    pub fn refresh_plan(&mut self)
        ensures
            ({
                let key = plan_key_of(old(self).work@, old(self).batch.files@.len());
                if key_view(old(self).batch.plan_key) == Some(key) {
                    *final(self) == *old(self)
                } else {
                    &&& is_plan(
                        strings_view(old(self).batch.files@),
                        old(self).work@,
                        final(self).batch.plan@,
                    )
                    &&& key_view(final(self).batch.plan_key) == Some(key)
                    &&& final(self).batch == BatchState {
                        plan: final(self).batch.plan,
                        plan_key: final(self).batch.plan_key,
                        ..old(self).batch
                    }
                    &&& only_batch(*old(self), *final(self))
                }
            }),
    {
        let ghost key = plan_key_of(self.work@, self.batch.files@.len());
        let mut current = false;
        match &self.batch.plan_key {
            Some(k) => {
                if k.1 == self.work.alpha && k.2 == self.batch.files.len() && k.0.len() == 4 {
                    let mut same = true;
                    let mut i: usize = 0;
                    while i < 4
                        invariant
                            i <= 4,
                            k.0@.len() == 4,
                            same <==> forall|j: int|
                                0 <= j < i ==> strings_view(#[trigger] k.0@[j]@)
                                    == self.work.slots@[j]@.suffixes,
                        decreases 4 - i,
                    {
                        if !same_strings(&k.0[i], &self.work.slots[i].suffixes) {
                            same = false;
                        }
                        i += 1;
                    }
                    current = same;
                    if same {
                        assert(key_view(self.batch.plan_key).unwrap().0 =~= key.0);
                    }
                }
            },
            None => {},
        }
        if current {
            return;
        }
        proof {
            if key_view(self.batch.plan_key) == Some(key) {
                let k = self.batch.plan_key.unwrap();
                assert(k.0@.len() == key.0.len());
                assert forall|j: int| 0 <= j < 4 implies strings_view(#[trigger] k.0@[j]@)
                    == self.work.slots@[j]@.suffixes by {
                    assert(key_view(self.batch.plan_key).unwrap().0[j] == key.0[j]);
                }
            }
        }
        let mut suffixes: Vec<Vec<String>> = Vec::new();
        let mut i: usize = 0;
        while i < 4
            invariant
                i <= 4,
                suffixes@.len() == i,
                forall|j: int|
                    0 <= j < i ==> strings_view(#[trigger] suffixes@[j]@)
                        == self.work.slots@[j]@.suffixes,
            decreases 4 - i,
        {
            suffixes.push(copy_strings(&self.work.slots[i].suffixes));
            i += 1;
        }
        let p = plan(self.batch.files.as_slice(), &self.work);
        assert(strings_of(self.batch.files@) =~= strings_view(self.batch.files@));
        self.batch.plan = p;
        self.batch.plan_key = Some((suffixes, self.work.alpha, self.batch.files.len()));
        assert(key_view(self.batch.plan_key).unwrap().0 =~= key.0);
    }

    /// The materials that will be packed: switched on, with at least one map.
    pub fn batch_enabled(&self) -> (r: Vec<Group>)
        ensures
            groups_view(r@) == enabled_groups(
                groups_view(self.batch.plan.groups@),
                strings_view(self.batch.disabled@),
                channels_of(self.work.alpha),
            ),
    {
        let ghost gv = groups_view(self.batch.plan.groups@);
        let ghost dv = strings_view(self.batch.disabled@);
        let ghost chans = channels_of(self.work.alpha);
        let mut r: Vec<Group> = Vec::new();
        let mut i: usize = 0;
        assert(gv.take(0).len() == 0);
        while i < self.batch.plan.groups.len()
            invariant
                i <= self.batch.plan.groups.len(),
                gv == groups_view(self.batch.plan.groups@),
                dv == strings_view(self.batch.disabled@),
                chans == channels_of(self.work.alpha),
                groups_view(r@) == enabled_groups(gv.take(i as int), dv, chans),
            decreases self.batch.plan.groups.len() - i,
        {
            assert(gv.take(i + 1).drop_last() == gv.take(i as int));
            assert(gv.take(i + 1).last() == self.batch.plan.groups@[i as int]@);
            let g = &self.batch.plan.groups[i];
            let key = to_lowercase(g.base.as_str());
            let ghost before = groups_view(r@);
            if !contains_string(&self.batch.disabled, &key) && filled(g, &self.work) > 0 {
                r.push(copy_group(g));
                assert(groups_view(r@) =~= before.push(g@));
            }
            i += 1;
        }
        assert(gv.take(self.batch.plan.groups.len() as int) == gv);
        r
    }

    /// Where a batch writes: the chosen folder, or `packed` beside the first file.
    pub fn batch_out_dir(&self) -> (r: Option<String>)
        ensures
            opt_chars(r) == batch_dir(
                opt_chars(self.output.folder),
                strings_view(self.batch.files@),
            ),
    {
        match &self.output.folder {
            Some(f) => Some(f.clone()),
            None => {
                if self.batch.files.len() > 0 {
                    match parent(self.batch.files[0].as_str()) {
                        Some(d) => Some(join(d.as_str(), "packed")),
                        None => None,
                    }
                } else {
                    None
                }
            },
        }
    }
}

/// The job handed to the worker: the materials, and the settings of the session.
pub open spec fn job_is(job: Job, s: Session, groups: Seq<GroupView>, dir: Seq<char>) -> bool {
    &&& groups_view(job.groups@) == groups
    &&& job.preset@ == s.work@
    &&& job.template@ == s.output.template@
    &&& job.format == s.output.format
    &&& job.sixteen == s.output.sixteen
    &&& job.policy == s.output.policy
    &&& job.custom == s.output.custom
    &&& job.out_dir@ == dir
    &&& job.overwrite == s.output.overwrite
}

pub open spec fn bases_of(groups: Seq<GroupView>) -> Seq<Seq<char>> {
    groups.map_values(|g: GroupView| g.base)
}

/// What becomes of the status when material `i` of the run is done.
pub open spec fn status_after(s: Session, i: usize, ok: bool) -> Seq<(Seq<char>, bool)> {
    let st = status_view(s.batch.status@);
    match s.batch.run {
        Some(run) => if i < run.bases@.len() {
            put(st, lowercase(run.bases@[i as int]@), ok)
        } else {
            st
        },
        None => st,
    }
}

/// What the status says of a material, by its name in lowercase.
pub open spec fn status_get(st: Seq<(Seq<char>, bool)>, key: Seq<char>) -> Option<bool> {
    match key_index(st, key) {
        Some(i) => Some(st[i].1),
        None => None,
    }
}

fn packing_message(n: usize, dir: &String) -> (r: String)
    ensures
        r@ == packing_text(n as nat, dir@),
{
    let mut t = chars_of("Packing ");
    append(&mut t, &decimal_chars(n as u128));
    append(&mut t, &chars_of(" materials into "));
    append(&mut t, &chars_of(dir.as_str()));
    string_of(t.as_slice())
}

impl Session {
    /// Start packing the batch. Returns the job for the background worker;
    /// `None`, with a notice, when there is nowhere to write or nothing to
    /// pack, and `None` alone while a run is under way.
    pub fn start_batch(&mut self) -> (r: Option<Job>)
        ensures
            ({
                let groups = enabled_groups(
                    groups_view(old(self).batch.plan.groups@),
                    strings_view(old(self).batch.disabled@),
                    channels_of(old(self).work.alpha),
                );
                let dir = batch_dir(
                    opt_chars(old(self).output.folder),
                    strings_view(old(self).batch.files@),
                );
                if old(self).batch.run is Some {
                    &&& r is None
                    &&& *final(self) == *old(self)
                } else if dir is None {
                    &&& r is None
                    &&& board(*final(self)) == notify(
                        board(*old(self)),
                        ToastKind::Warning,
                        "Choose an output folder"@,
                    )
                    &&& keeps_rest(*old(self), *final(self))
                } else if groups.len() == 0 {
                    &&& r is None
                    &&& board(*final(self)) == notify(
                        board(*old(self)),
                        ToastKind::Warning,
                        "Nothing to process"@,
                    )
                    &&& keeps_rest(*old(self), *final(self))
                } else {
                    let d = dir->Some_0;
                    &&& r matches Some(job) && job_is(job, *old(self), groups, d)
                    &&& log_view(final(self).batch.log@) == seq![
                        (LogLevel::Info, packing_text(groups.len(), d)),
                    ]
                    &&& final(self).batch.status@.len() == 0
                    &&& final(self).batch.finished_dir is None
                    &&& final(self).batch.run matches Some(run) && run.total == groups.len()
                        && strings_view(run.bases@) == bases_of(groups)
                    &&& opt_chars(final(self).last_export) == Some(d)
                    &&& final(self).batch == (BatchState {
                        log: final(self).batch.log,
                        status: final(self).batch.status,
                        finished_dir: None,
                        run: final(self).batch.run,
                        ..old(self).batch
                    })
                    &&& unchanged(
                        *old(self),
                        (Session {
                            batch: old(self).batch,
                            last_export: old(self).last_export,
                            ..*final(self)
                        }),
                    )
                }
            }),
    {
        if self.batch.run.is_some() {
            return None;
        }
        let groups = self.batch_enabled();
        let out_dir = match self.batch_out_dir() {
            Some(d) => d,
            None => {
                self.toast(ToastKind::Warning, "Choose an output folder".to_owned());
                return None;
            },
        };
        if groups.len() == 0 {
            self.toast(ToastKind::Warning, "Nothing to process".to_owned());
            return None;
        }
        let ghost gv = groups_view(groups@);
        let mut bases: Vec<String> = Vec::new();
        let mut i: usize = 0;
        while i < groups.len()
            invariant
                i <= groups.len(),
                gv == groups_view(groups@),
                strings_view(bases@) == bases_of(gv.take(i as int)),
            decreases groups.len() - i,
        {
            let ghost before = strings_view(bases@);
            assert(gv[i as int] == groups@[i as int]@);
            bases.push(groups[i].base.clone());
            assert(gv.take(i + 1) =~= gv.take(i as int).push(gv[i as int]));
            assert(strings_view(bases@) =~= before.push(gv[i as int].base));
            assert(bases_of(gv.take(i + 1)) =~= bases_of(gv.take(i as int)).push(gv[i as int].base));
            i += 1;
        }
        assert(gv.take(groups.len() as int) == gv);
        let n = groups.len();
        let text = packing_message(n, &out_dir);
        let job = Job {
            groups,
            preset: self.work.copy(),
            template: self.output.template.clone(),
            format: self.output.format,
            sixteen: self.output.sixteen,
            policy: self.output.policy,
            custom: self.output.custom,
            out_dir: out_dir.clone(),
            overwrite: self.output.overwrite,
        };
        self.batch.log = Vec::new();
        self.batch.status = Vec::new();
        self.batch.finished_dir = None;
        self.batch.log.push((LogLevel::Info, text));
        assert(log_view(self.batch.log@) =~= seq![(LogLevel::Info, packing_text(n as nat, out_dir@))]);
        self.batch.run = Some(BatchRun { total: n, bases });
        self.last_export = Some(out_dir);
        Some(job)
    }

    /// Take in what the worker reports: a log line, a material done, or the
    /// end of the run (with a notice of how it went).
    pub fn batch_event(&mut self, event: Event)
        ensures
            match event {
                Event::Log(level, text) => {
                    &&& log_view(final(self).batch.log@) == log_view(old(self).batch.log@).push(
                        (level, text@),
                    )
                    &&& final(self).batch == (BatchState { log: final(self).batch.log, ..old(self).batch })
                    &&& only_batch(*old(self), *final(self))
                },
                Event::Done(i, ok) => {
                    &&& status_view(final(self).batch.status@) == status_after(*old(self), i, ok)
                    &&& final(self).batch == (BatchState {
                        status: final(self).batch.status,
                        ..old(self).batch
                    })
                    &&& only_batch(*old(self), *final(self))
                },
                Event::Finished => {
                    let st = status_view(old(self).batch.status@);
                    let dir = opt_chars(old(self).last_export);
                    &&& final(self).batch.run is None
                    &&& opt_chars(final(self).batch.finished_dir) == dir
                    &&& final(self).batch == (BatchState {
                        run: None,
                        finished_dir: final(self).batch.finished_dir,
                        ..old(self).batch
                    })
                    &&& board(*final(self)) == (Board {
                        notices: board(*old(self)).notices.push(
                            finished_note(failures(st), st.len(), dir),
                        ),
                        ..board(*old(self))
                    })
                    &&& unchanged(
                        *old(self),
                        (Session {
                            batch: old(self).batch,
                            notices: old(self).notices,
                            ..*final(self)
                        }),
                    )
                },
            },
    {
        match event {
            Event::Log(level, text) => {
                let ghost before = log_view(self.batch.log@);
                let ghost t = text@;
                self.batch.log.push((level, text));
                assert(log_view(self.batch.log@) =~= before.push((level, t)));
            },
            Event::Done(i, ok) => {
                let key = match &self.batch.run {
                    Some(run) => if i < run.bases.len() {
                        Some(to_lowercase(run.bases[i].as_str()))
                    } else {
                        None
                    },
                    None => None,
                };
                match key {
                    Some(k) => put_status(&mut self.batch.status, k, ok),
                    None => {},
                }
            },
            Event::Finished => {
                let failed = count_failures(&self.batch.status);
                let done = self.batch.status.len();
                let (kind, text) = finished_text(failed, done);
                self.batch.run = None;
                let dir = match &self.last_export {
                    Some(d) => Some(d.clone()),
                    None => None,
                };
                let reveal = match &self.last_export {
                    Some(d) => Some(d.clone()),
                    None => None,
                };
                self.batch.finished_dir = dir;
                let ghost before = notices_view(self.notices@);
                self.notices.push(Toast { kind, text, reveal });
                assert(notices_view(self.notices@) =~= before.push(
                    finished_note(
                        failures(status_view(old(self).batch.status@)),
                        status_view(old(self).batch.status@).len(),
                        opt_chars(old(self).last_export),
                    ),
                ));
            },
        }
    }

    /// How a material of the last run went, by its name in lowercase.
    pub fn batch_status(&self, key: &String) -> (r: Option<bool>)
        ensures
            r == status_get(status_view(self.batch.status@), key@),
    {
        let ghost sv = status_view(self.batch.status@);
        proof {
            lemma_key_index(sv, key@);
        }
        let mut i: usize = 0;
        while i < self.batch.status.len()
            invariant
                i <= self.batch.status.len(),
                sv == status_view(self.batch.status@),
                key_index(sv, key@) matches Some(j) ==> j >= i,
                forall|k: int| 0 <= k < i ==> (#[trigger] sv[k]).0 != key@,
            decreases self.batch.status.len() - i,
        {
            proof {
                lemma_key_index(sv, key@);
            }
            if same_strings_of(&self.batch.status[i].0, key) {
                assert(sv[i as int].0 == key@);
                assert(key_index(sv, key@) == Some(i as int));
                return Some(self.batch.status[i].1);
            }
            assert(sv[i as int].0 != key@);
            i += 1;
        }
        proof {
            lemma_key_index(sv, key@);
        }
        None
    }
}

// ------------------------------------------------------------ the table

/// How a material of the batch stands.
#[derive(Clone, Copy, PartialEq, Eq, Debug, Structural)]
pub enum RowStatus {
    /// Packed in the last run.
    Done,
    /// The last run could not pack it.
    Failed,
    /// None of the channels written has a map.
    NoMaps,
    /// Fewer maps than channels with a role.
    Partial,
    Ready,
}

/// How many of `chans` have a role in the preset.
pub open spec fn roles_count(work: PresetView, chans: Seq<crate::model::Channel>) -> nat
    decreases chans.len(),
{
    if chans.len() == 0 {
        0
    } else {
        roles_count(work, chans.drop_last()) + if work.slots[chans.last().idx() as int].role.len() > 0 {
            1nat
        } else {
            0nat
        }
    }
}

/// The status shown for a material: how the last run went, else whether it
/// has maps enough.
pub open spec fn row_status(status: Option<bool>, filled: nat, roles: nat) -> RowStatus {
    match status {
        Some(true) => RowStatus::Done,
        Some(false) => RowStatus::Failed,
        None => if filled == 0 {
            RowStatus::NoMaps
        } else if filled < roles {
            RowStatus::Partial
        } else {
            RowStatus::Ready
        },
    }
}

impl Session {
    /// The status of a material in the batch table.
    pub fn material_status(&self, group: &Group) -> (r: RowStatus)
        ensures
            r == row_status(
                status_get(status_view(self.batch.status@), lowercase(group@.base)),
                filled_count(group@.files, channels_of(self.work.alpha)),
                roles_count(self.work@, channels_of(self.work.alpha)),
            ),
    {
        let key = to_lowercase(group.base.as_str());
        let status = self.batch_status(&key);
        let filled = filled(group, &self.work);
        let chans = self.work.channels();
        let mut roles: usize = 0;
        let mut i: usize = 0;
        while i < chans.len()
            invariant
                i <= chans.len(),
                chans@ == channels_of(self.work.alpha),
                roles == roles_count(self.work@, chans@.take(i as int)),
                roles <= i,
            decreases chans.len() - i,
        {
            assert(chans@.take(i + 1).drop_last() == chans@.take(i as int));
            let c = chans[i];
            assert(self.work@.slots[c.idx() as int] == self.work.slots@[c.idx() as int]@);
            if chars_of(self.work.slots[c.index()].role.as_str()).len() > 0 {
                roles += 1;
            }
            i += 1;
        }
        assert(chans@.take(chans.len() as int) == chans@);
        match status {
            Some(true) => RowStatus::Done,
            Some(false) => RowStatus::Failed,
            None => if filled == 0 {
                RowStatus::NoMaps
            } else if filled < roles {
                RowStatus::Partial
            } else {
                RowStatus::Ready
            },
        }
    }
}

} // verus!
