//! Batch mode: sort a heap of files into materials and pack them all at once.

use vstd::prelude::*;
use vstd::multiset::Multiset;

use crate::model::{Channel, OutputFormat, Preset, PresetView, SizePolicy, channels_of};
use crate::naming::{match_suffix, suffix_match};
use crate::paths::{equal, file_stem, less, opt_chars, path_less, path_stem, paths_equal};
use crate::model::strings_view;
use crate::text::{
    chars_lt, chars_of, lemma_lex_irreflexive, lemma_lex_total, lemma_lex_transitive, lex_lt, lowercase, same_chars,
    string_of, to_lowercase,
};

verus! {

/// The abstract value of a material.
pub struct GroupView {
    pub base: Seq<char>,
    pub files: Seq<Option<Seq<char>>>,
}

/// A material: maps that share a name.
#[derive(Debug, Clone)]
pub struct Group {
    pub base: String,
    pub files: [Option<String>; 4],
}

impl View for Group {
    type V = GroupView;

    open spec fn view(&self) -> GroupView {
        GroupView {
            base: self.base@,
            files: self.files@.map_values(|f: Option<String>| opt_chars(f)),
        }
    }
}

/// The abstract value of a plan.
pub struct PlanView {
    pub groups: Seq<GroupView>,
    pub unmatched: Seq<Seq<char>>,
    pub conflicts: Seq<(Seq<char>, Seq<char>)>,
}

/// Files sorted over a preset.
#[derive(Debug, Default, Clone)]
pub struct Plan {
    pub groups: Vec<Group>,
    /// Files for which no channel was found.
    pub unmatched: Vec<String>,
    /// A second file for a channel of a material that already has one.
    pub conflicts: Vec<(String, String)>,
}

pub open spec fn groups_view(v: Seq<Group>) -> Seq<GroupView> {
    v.map_values(|g: Group| g@)
}

pub open spec fn strings_of(v: Seq<String>) -> Seq<Seq<char>> {
    v.map_values(|s: String| s@)
}

pub open spec fn pairs_of(v: Seq<(String, String)>) -> Seq<(Seq<char>, Seq<char>)> {
    v.map_values(|p: (String, String)| (p.0@, p.1@))
}

impl View for Plan {
    type V = PlanView;

    open spec fn view(&self) -> PlanView {
        PlanView {
            groups: groups_view(self.groups@),
            unmatched: strings_of(self.unmatched@),
            conflicts: pairs_of(self.conflicts@),
        }
    }
}

/// The file name of a path without its extension; empty when it has none.
pub open spec fn stem_of(path: Seq<char>) -> Seq<char> {
    match path_stem(path) {
        Some(s) => s,
        None => Seq::empty(),
    }
}

/// Materials are told apart by their name in lowercase.
pub open spec fn group_key(g: GroupView) -> Seq<char> {
    lowercase(g.base)
}

/// The first material with this key.
pub open spec fn find_group(groups: Seq<GroupView>, key: Seq<char>) -> Option<int>
    decreases groups.len(),
{
    if groups.len() == 0 {
        None
    } else {
        match find_group(groups.drop_last(), key) {
            Some(i) => Some(i),
            None => if group_key(groups.last()) == key {
                Some(groups.len() - 1)
            } else {
                None
            },
        }
    }
}

proof fn lemma_find_group(groups: Seq<GroupView>, key: Seq<char>)
    ensures
        find_group(groups, key) matches Some(i) ==> 0 <= i < groups.len() && group_key(groups[i])
            == key,
        find_group(groups, key) is None ==> forall|k: int|
            0 <= k < groups.len() ==> group_key(#[trigger] groups[k]) != key,
    decreases groups.len(),
{
    if groups.len() > 0 {
        lemma_find_group(groups.drop_last(), key);
        assert forall|k: int| 0 <= k < groups.len() - 1 implies groups[k] == groups.drop_last()[k] by {
        }
    }
}

pub open spec fn new_group(base: Seq<char>) -> GroupView {
    GroupView { base, files: seq![None, None, None, None] }
}

/// One file placed into the plan so far.
pub open spec fn plan_step(st: PlanView, path: Seq<char>, preset: PresetView) -> PlanView {
    let stem = stem_of(path);
    match suffix_match(stem, preset) {
        None => PlanView { unmatched: st.unmatched.push(path), ..st },
        Some(m) => {
            let base = if m.1.len() == 0 {
                stem
            } else {
                m.1
            };
            let key = lowercase(base);
            let groups = match find_group(st.groups, key) {
                Some(_) => st.groups,
                None => st.groups.push(new_group(base)),
            };
            let at = match find_group(st.groups, key) {
                Some(i) => i,
                None => st.groups.len() as int,
            };
            let c = m.0.idx() as int;
            if groups[at].files[c] is Some {
                PlanView {
                    groups,
                    conflicts: st.conflicts.push((path, base + " "@ + seq![m.0.letter_char()])),
                    ..st
                }
            } else {
                PlanView {
                    groups: groups.update(
                        at,
                        GroupView { files: groups[at].files.update(c, Some(path)), ..groups[at] },
                    ),
                    ..st
                }
            }
        },
    }
}

/// The files placed in order, before the materials are sorted.
pub open spec fn plan_fold(files: Seq<Seq<char>>, preset: PresetView) -> PlanView
    decreases files.len(),
{
    if files.len() == 0 {
        PlanView { groups: Seq::empty(), unmatched: Seq::empty(), conflicts: Seq::empty() }
    } else {
        plan_step(plan_fold(files.drop_last(), preset), files.last(), preset)
    }
}

/// How many channels of a material have a file.
pub open spec fn some_count(files: Seq<Option<Seq<char>>>) -> nat
    decreases files.len(),
{
    if files.len() == 0 {
        0
    } else {
        some_count(files.drop_last()) + if files.last() is Some {
            1nat
        } else {
            0nat
        }
    }
}

/// How many files the materials hold in all.
pub open spec fn placed_count(groups: Seq<GroupView>) -> nat
    decreases groups.len(),
{
    if groups.len() == 0 {
        0
    } else {
        placed_count(groups.drop_last()) + some_count(groups.last().files)
    }
}

proof fn lemma_some_count_fill(files: Seq<Option<Seq<char>>>, c: int, f: Seq<char>)
    requires
        0 <= c < files.len(),
        files[c] is None,
    ensures
        some_count(files.update(c, Some(f))) == some_count(files) + 1,
    decreases files.len(),
{
    let u = files.update(c, Some(f));
    if c < files.len() - 1 {
        assert(u.drop_last() =~= files.drop_last().update(c, Some(f)));
        lemma_some_count_fill(files.drop_last(), c, f);
    } else {
        assert(u.drop_last() =~= files.drop_last());
    }
}

proof fn lemma_placed_count_update(groups: Seq<GroupView>, at: int, g: GroupView)
    requires
        0 <= at < groups.len(),
    ensures
        placed_count(groups.update(at, g)) + some_count(groups[at].files) == placed_count(groups)
            + some_count(g.files),
    decreases groups.len(),
{
    let u = groups.update(at, g);
    if at < groups.len() - 1 {
        assert(u.drop_last() =~= groups.drop_last().update(at, g));
        lemma_placed_count_update(groups.drop_last(), at, g);
    } else {
        assert(u.drop_last() =~= groups.drop_last());
    }
}

proof fn lemma_fold_four(files: Seq<Seq<char>>, preset: PresetView)
    ensures
        forall|i: int|
            0 <= i < plan_fold(files, preset).groups.len() ==> (#[trigger] plan_fold(
                files,
                preset,
            ).groups[i]).files.len() == 4,
    decreases files.len(),
{
    if files.len() > 0 {
        let st = plan_fold(files.drop_last(), preset);
        lemma_fold_four(files.drop_last(), preset);
        let stem = stem_of(files.last());
        if let Some(m) = suffix_match(stem, preset) {
            let base = if m.1.len() == 0 {
                stem
            } else {
                m.1
            };
            lemma_find_group(st.groups, lowercase(base));
        }
    }
}

/// Every file lands in exactly one place: a channel of a material, the
/// unmatched list, or the conflicts.
pub proof fn law_every_file_placed_once(files: Seq<Seq<char>>, preset: PresetView)
    ensures
        ({
            let p = plan_fold(files, preset);
            placed_count(p.groups) + p.unmatched.len() + p.conflicts.len() == files.len()
        }),
    decreases files.len(),
{
    if files.len() > 0 {
        let st = plan_fold(files.drop_last(), preset);
        law_every_file_placed_once(files.drop_last(), preset);
        lemma_fold_four(files.drop_last(), preset);
        let path = files.last();
        let stem = stem_of(path);
        match suffix_match(stem, preset) {
            None => {},
            Some(m) => {
                let base = if m.1.len() == 0 {
                    stem
                } else {
                    m.1
                };
                let key = lowercase(base);
                lemma_find_group(st.groups, key);
                let groups = match find_group(st.groups, key) {
                    Some(_) => st.groups,
                    None => st.groups.push(new_group(base)),
                };
                let at = match find_group(st.groups, key) {
                    Some(i) => i,
                    None => st.groups.len() as int,
                };
                if find_group(st.groups, key) is None {
                    assert(groups.drop_last() =~= st.groups);
                    assert(some_count(new_group(base).files) == 0) by {
                        reveal_with_fuel(some_count, 5);
                    }
                }
                assert(placed_count(groups) == placed_count(st.groups));
                let c = m.0.idx() as int;
                if groups[at].files[c] is None {
                    let g = GroupView { files: groups[at].files.update(c, Some(path)), ..groups[at] };
                    lemma_some_count_fill(groups[at].files, c, path);
                    lemma_placed_count_update(groups, at, g);
                }
            },
        }
    }
}

/// The files for which no channel matches, in their order.
pub open spec fn unmatched_of(files: Seq<Seq<char>>, preset: PresetView) -> Seq<Seq<char>>
    decreases files.len(),
{
    if files.len() == 0 {
        seq![]
    } else {
        let rest = unmatched_of(files.drop_last(), preset);
        if suffix_match(stem_of(files.last()), preset) is None {
            rest.push(files.last())
        } else {
            rest
        }
    }
}

/// The material name of a file: its stem without the suffix found (the whole
/// stem when nothing is left).
pub open spec fn base_of(path: Seq<char>, preset: PresetView) -> Seq<char> {
    match suffix_match(stem_of(path), preset) {
        Some(m) => if m.1.len() == 0 {
            stem_of(path)
        } else {
            m.1
        },
        None => stem_of(path),
    }
}

/// A file in channel `c` of the material with key `key` belongs there: its
/// suffix picks that channel, and its material name has that key.
pub open spec fn file_fits(path: Seq<char>, preset: PresetView, key: Seq<char>, c: int) -> bool {
    &&& suffix_match(stem_of(path), preset) matches Some(m) && m.0.idx() == c
    &&& lowercase(base_of(path, preset)) == key
}

/// Placing files one by one: the unmatched files are those no channel
/// matches, in their order; every material holds at least one file; and
/// every file in a material is an input file whose suffix picks that channel
/// and whose material name has the material's key.
proof fn lemma_fold_places_by_suffix(files: Seq<Seq<char>>, preset: PresetView)
    ensures
        plan_fold(files, preset).unmatched == unmatched_of(files, preset),
        forall|i: int|
            0 <= i < plan_fold(files, preset).groups.len() ==> some_count(
                (#[trigger] plan_fold(files, preset).groups[i]).files,
            ) > 0,
        forall|i: int, c: int|
            0 <= i < plan_fold(files, preset).groups.len() && 0 <= c < 4 && (#[trigger] plan_fold(
                files,
                preset,
            ).groups[i].files[c]) is Some ==> {
                let g = plan_fold(files, preset).groups[i];
                &&& file_fits(g.files[c]->Some_0, preset, group_key(g), c)
                &&& files.contains(g.files[c]->Some_0)
            },
    decreases files.len(),
{
    if files.len() > 0 {
        let d = files.drop_last();
        let st = plan_fold(d, preset);
        lemma_fold_places_by_suffix(d, preset);
        lemma_fold_four(d, preset);
        let r = plan_fold(files, preset);
        let path = files.last();
        assert(files[files.len() - 1] == path);
        assert forall|q: Seq<char>| d.contains(q) implies files.contains(q) by {
            let k = choose|k: int| 0 <= k < d.len() && d[k] == q;
            assert(files[k] == q);
        }
        let stem = stem_of(path);
        match suffix_match(stem, preset) {
            None => {},
            Some(m) => {
                let base = if m.1.len() == 0 {
                    stem
                } else {
                    m.1
                };
                let key = lowercase(base);
                lemma_find_group(st.groups, key);
                let groups = match find_group(st.groups, key) {
                    Some(_) => st.groups,
                    None => st.groups.push(new_group(base)),
                };
                let at = match find_group(st.groups, key) {
                    Some(i) => i,
                    None => st.groups.len() as int,
                };
                let c = m.0.idx() as int;
                assert(group_key(groups[at]) == key);
                if find_group(st.groups, key) is None {
                    assert(groups[at].files[c] is None);
                }
                if groups[at].files[c] is None {
                    let g = GroupView { files: groups[at].files.update(c, Some(path)), ..groups[at] };
                    lemma_some_count_fill(groups[at].files, c, path);
                    assert(r.groups == groups.update(at, g));
                    assert forall|i: int|
                        0 <= i < r.groups.len() implies some_count((#[trigger] r.groups[i]).files) > 0 by {
                        if i != at {
                            assert(r.groups[i] == st.groups[i]);
                        }
                    }
                    assert forall|i: int, k: int|
                        0 <= i < r.groups.len() && 0 <= k < 4 && (#[trigger] r.groups[i].files[k]) is Some implies {
                        &&& file_fits(r.groups[i].files[k]->Some_0, preset, group_key(r.groups[i]), k)
                        &&& files.contains(r.groups[i].files[k]->Some_0)
                    } by {
                        if i != at {
                            assert(r.groups[i] == st.groups[i]);
                        } else if k != c {
                            assert(r.groups[i].files[k] == groups[at].files[k]);
                            assert(groups[at].files[k] == st.groups[at].files[k]);
                        } else {
                            assert(files.contains(path));
                        }
                    }
                } else {
                    assert(r.groups == groups);
                    assert(find_group(st.groups, key) is Some);
                }
            },
        }
    }
}

/// A material with this key already holds a file in channel `c`.
pub open spec fn taken_in(groups: Seq<GroupView>, key: Seq<char>, c: int) -> bool {
    exists|i: int| 0 <= i < groups.len() && group_key(#[trigger] groups[i]) == key && groups[i].files[c] is Some
}

proof fn lemma_step_keeps(st: PlanView, path: Seq<char>, preset: PresetView)
    requires
        forall|i: int| 0 <= i < st.groups.len() ==> (#[trigger] st.groups[i]).files.len() == 4,
    ensures
        plan_step(st, path, preset).groups.len() >= st.groups.len(),
        plan_step(st, path, preset).conflicts.len() >= st.conflicts.len(),
        forall|j: int|
            0 <= j < st.conflicts.len() ==> #[trigger] plan_step(st, path, preset).conflicts[j]
                == st.conflicts[j],
        forall|i: int|
            0 <= i < st.groups.len() ==> {
                let g = #[trigger] plan_step(st, path, preset).groups[i];
                &&& group_key(g) == group_key(st.groups[i])
                &&& forall|c: int|
                    0 <= c < 4 && (#[trigger] st.groups[i].files[c]) is Some ==> g.files[c]
                        == st.groups[i].files[c]
            },
{
    let stem = stem_of(path);
    if let Some(m) = suffix_match(stem, preset) {
        let base = if m.1.len() == 0 {
            stem
        } else {
            m.1
        };
        let key = lowercase(base);
        lemma_find_group(st.groups, key);
        let groups = match find_group(st.groups, key) {
            Some(_) => st.groups,
            None => st.groups.push(new_group(base)),
        };
        let at = match find_group(st.groups, key) {
            Some(i) => i,
            None => st.groups.len() as int,
        };
        assert forall|i: int| 0 <= i < st.groups.len() implies #[trigger] groups[i] == st.groups[i] by {}
        let c = m.0.idx() as int;
        let r = plan_step(st, path, preset);
        if groups[at].files[c] is None {
            let g = GroupView { files: groups[at].files.update(c, Some(path)), ..groups[at] };
            assert(r.groups == groups.update(at, g));
            assert forall|i: int| 0 <= i < st.groups.len() implies {
                let h = #[trigger] r.groups[i];
                &&& group_key(h) == group_key(st.groups[i])
                &&& forall|k: int|
                    0 <= k < 4 && (#[trigger] st.groups[i].files[k]) is Some ==> h.files[k]
                        == st.groups[i].files[k]
            } by {
                if i == at {
                    assert forall|k: int|
                        0 <= k < 4 && (#[trigger] st.groups[i].files[k]) is Some implies r.groups[i].files[k]
                        == st.groups[i].files[k] by {
                        assert(k != c);
                    }
                }
            }
        }
    }
}

/// A later file for a channel that a material already fills is a conflict:
/// it is an input file, its suffix picks that channel, the note names its
/// material and the channel letter, and the material keeps the file it had.
proof fn lemma_fold_conflicts(files: Seq<Seq<char>>, preset: PresetView)
    ensures
        forall|j: int|
            0 <= j < plan_fold(files, preset).conflicts.len() ==> {
                let (p, note) = #[trigger] plan_fold(files, preset).conflicts[j];
                &&& files.contains(p)
                &&& suffix_match(stem_of(p), preset) matches Some(m) && {
                    &&& note == base_of(p, preset) + " "@ + seq![m.0.letter_char()]
                    &&& taken_in(plan_fold(files, preset).groups, lowercase(base_of(p, preset)), m.0.idx() as int)
                }
            },
    decreases files.len(),
{
    if files.len() > 0 {
        let d = files.drop_last();
        let st = plan_fold(d, preset);
        lemma_fold_conflicts(d, preset);
        lemma_fold_four(d, preset);
        let r = plan_fold(files, preset);
        let path = files.last();
        assert(files[files.len() - 1] == path);
        assert forall|q: Seq<char>| d.contains(q) implies files.contains(q) by {
            let k = choose|k: int| 0 <= k < d.len() && d[k] == q;
            assert(files[k] == q);
        }
        // Whatever a material held, it still holds, under the same key.
        lemma_step_keeps(st, path, preset);
        assert forall|key: Seq<char>, c: int| 0 <= c < 4 && taken_in(st.groups, key, c) implies taken_in(
            r.groups,
            key,
            c,
        ) by {
            let i = choose|i: int|
                0 <= i < st.groups.len() && group_key(#[trigger] st.groups[i]) == key
                    && st.groups[i].files[c] is Some;
            assert(group_key(r.groups[i]) == key && r.groups[i].files[c] is Some);
        }
        let stem = stem_of(path);
        if let Some(m) = suffix_match(stem, preset) {
            let base = if m.1.len() == 0 {
                stem
            } else {
                m.1
            };
            let key = lowercase(base);
            lemma_find_group(st.groups, key);
            let groups = match find_group(st.groups, key) {
                Some(_) => st.groups,
                None => st.groups.push(new_group(base)),
            };
            let at = match find_group(st.groups, key) {
                Some(i) => i,
                None => st.groups.len() as int,
            };
            let c = m.0.idx() as int;
            if groups[at].files[c] is Some {
                assert(find_group(st.groups, key) is Some);
                assert(r.groups == st.groups);
                assert(r.conflicts == st.conflicts.push((path, base + " "@ + seq![m.0.letter_char()])));
                assert(taken_in(r.groups, key, c)) by {
                    assert(group_key(r.groups[at]) == key);
                }
            }
        }
        assert forall|j: int| 0 <= j < r.conflicts.len() implies {
            let (p, note) = #[trigger] r.conflicts[j];
            &&& files.contains(p)
            &&& suffix_match(stem_of(p), preset) matches Some(m) && {
                &&& note == base_of(p, preset) + " "@ + seq![m.0.letter_char()]
                &&& taken_in(r.groups, lowercase(base_of(p, preset)), m.0.idx() as int)
            }
        } by {
            if j < st.conflicts.len() {
                assert(r.conflicts[j] == st.conflicts[j]);
            }
        }
    }
}

/// The files held in the channels of a material.
pub open spec fn files_ms(fs: Seq<Option<Seq<char>>>) -> Multiset<Seq<char>>
    decreases fs.len(),
{
    if fs.len() == 0 {
        Multiset::empty()
    } else {
        let rest = files_ms(fs.drop_last());
        match fs.last() {
            Some(f) => rest.insert(f),
            None => rest,
        }
    }
}

/// The files held by all the materials.
pub open spec fn groups_ms(gs: Seq<GroupView>) -> Multiset<Seq<char>>
    decreases gs.len(),
{
    if gs.len() == 0 {
        Multiset::empty()
    } else {
        groups_ms(gs.drop_last()).add(files_ms(gs.last().files))
    }
}

pub open spec fn conflict_paths(cs: Seq<(Seq<char>, Seq<char>)>) -> Seq<Seq<char>> {
    cs.map_values(|c: (Seq<char>, Seq<char>)| c.0)
}

proof fn lemma_files_ms_fill(fs: Seq<Option<Seq<char>>>, c: int, f: Seq<char>)
    requires
        0 <= c < fs.len(),
        fs[c] is None,
    ensures
        files_ms(fs.update(c, Some(f))) == files_ms(fs).insert(f),
    decreases fs.len(),
{
    broadcast use vstd::multiset::group_multiset_axioms;

    let u = fs.update(c, Some(f));
    if c < fs.len() - 1 {
        assert(u.drop_last() =~= fs.drop_last().update(c, Some(f)));
        lemma_files_ms_fill(fs.drop_last(), c, f);
        match fs.last() {
            Some(x) => {
                assert(files_ms(u) =~= files_ms(fs).insert(f));
            },
            None => {},
        }
    } else {
        assert(u.drop_last() =~= fs.drop_last());
    }
}

proof fn lemma_groups_ms_fill(gs: Seq<GroupView>, at: int, g: GroupView, f: Seq<char>)
    requires
        0 <= at < gs.len(),
        files_ms(g.files) == files_ms(gs[at].files).insert(f),
    ensures
        groups_ms(gs.update(at, g)) == groups_ms(gs).insert(f),
    decreases gs.len(),
{
    broadcast use vstd::multiset::group_multiset_axioms;

    let u = gs.update(at, g);
    if at < gs.len() - 1 {
        assert(u.drop_last() =~= gs.drop_last().update(at, g));
        lemma_groups_ms_fill(gs.drop_last(), at, g, f);
        assert(groups_ms(u) =~= groups_ms(gs).insert(f));
    } else {
        assert(u.drop_last() =~= gs.drop_last());
        assert(groups_ms(u) =~= groups_ms(gs).insert(f));
    }
}

/// Every input file comes out exactly once, counted with repeats: in a
/// channel of a material, among the unmatched files, or among the conflicts.
proof fn lemma_fold_keeps_every_file(files: Seq<Seq<char>>, preset: PresetView)
    ensures
        ({
            let p = plan_fold(files, preset);
            groups_ms(p.groups).add(p.unmatched.to_multiset()).add(
                conflict_paths(p.conflicts).to_multiset(),
            ) == files.to_multiset()
        }),
    decreases files.len(),
{
    broadcast use vstd::multiset::group_multiset_axioms;
    broadcast use vstd::seq_lib::group_to_multiset_ensures;

    if files.len() == 0 {
        assert(files.to_multiset() =~= Multiset::empty());
        let p = plan_fold(files, preset);
        assert(conflict_paths(p.conflicts) =~= Seq::<Seq<char>>::empty());
        assert(groups_ms(p.groups).add(p.unmatched.to_multiset()).add(
            conflict_paths(p.conflicts).to_multiset(),
        ) =~= Multiset::empty());
    } else {
        let d = files.drop_last();
        let st = plan_fold(d, preset);
        lemma_fold_keeps_every_file(d, preset);
        lemma_fold_four(d, preset);
        let r = plan_fold(files, preset);
        let path = files.last();
        assert(files =~= d.push(path));
        let before = groups_ms(st.groups).add(st.unmatched.to_multiset()).add(
            conflict_paths(st.conflicts).to_multiset(),
        );
        let stem = stem_of(path);
        match suffix_match(stem, preset) {
            None => {
                assert(r.unmatched == st.unmatched.push(path));
                assert(groups_ms(r.groups).add(r.unmatched.to_multiset()).add(
                    conflict_paths(r.conflicts).to_multiset(),
                ) =~= before.insert(path));
            },
            Some(m) => {
                let base = if m.1.len() == 0 {
                    stem
                } else {
                    m.1
                };
                let key = lowercase(base);
                lemma_find_group(st.groups, key);
                let groups = match find_group(st.groups, key) {
                    Some(_) => st.groups,
                    None => st.groups.push(new_group(base)),
                };
                let at = match find_group(st.groups, key) {
                    Some(i) => i,
                    None => st.groups.len() as int,
                };
                if find_group(st.groups, key) is None {
                    assert(groups.drop_last() =~= st.groups);
                    assert(files_ms(new_group(base).files) =~= Multiset::empty()) by {
                        reveal_with_fuel(files_ms, 5);
                    }
                    assert(groups_ms(groups) =~= groups_ms(st.groups));
                }
                assert(groups_ms(groups) == groups_ms(st.groups));
                let c = m.0.idx() as int;
                if groups[at].files[c] is None {
                    let g = GroupView { files: groups[at].files.update(c, Some(path)), ..groups[at] };
                    lemma_files_ms_fill(groups[at].files, c, path);
                    lemma_groups_ms_fill(groups, at, g, path);
                    assert(r.groups == groups.update(at, g));
                    assert(groups_ms(r.groups).add(r.unmatched.to_multiset()).add(
                        conflict_paths(r.conflicts).to_multiset(),
                    ) =~= before.insert(path));
                } else {
                    let e = (path, base + " "@ + seq![m.0.letter_char()]);
                    assert(r.conflicts == st.conflicts.push(e));
                    assert(conflict_paths(r.conflicts) =~= conflict_paths(st.conflicts).push(path));
                    assert(groups_ms(r.groups).add(r.unmatched.to_multiset()).add(
                        conflict_paths(r.conflicts).to_multiset(),
                    ) =~= before.insert(path));
                }
            },
        }
    }
}

/// Materials in strictly increasing order of their key.
pub open spec fn sorted_groups(gs: Seq<GroupView>) -> bool {
    forall|i: int, j: int|
        0 <= i < j < gs.len() ==> lex_lt(group_key(#[trigger] gs[i]), group_key(#[trigger] gs[j]))
}

/// The same materials, in any order.
pub open spec fn same_groups(a: Seq<GroupView>, b: Seq<GroupView>) -> bool {
    &&& a.len() == b.len()
    &&& forall|i: int| 0 <= i < a.len() ==> b.contains(#[trigger] a[i])
    &&& forall|j: int| 0 <= j < b.len() ==> a.contains(#[trigger] b[j])
}

/// No two materials share a key.
pub open spec fn distinct_keys(gs: Seq<GroupView>) -> bool {
    forall|i: int, j: int|
        0 <= i < j < gs.len() ==> group_key(#[trigger] gs[i]) != group_key(#[trigger] gs[j])
}

/// The plan of `files` over `preset`: files placed in order, the materials
/// then sorted by name.
pub open spec fn is_plan(files: Seq<Seq<char>>, preset: PresetView, p: PlanView) -> bool {
    let f = plan_fold(files, preset);
    &&& p.unmatched == f.unmatched
    &&& p.conflicts == f.conflicts
    &&& sorted_groups(p.groups)
    &&& same_groups(p.groups, f.groups)
}

proof fn lemma_sorted_same(a: Seq<GroupView>, b: Seq<GroupView>)
    requires
        sorted_groups(a),
        sorted_groups(b),
        same_groups(a, b),
    ensures
        a == b,
    decreases a.len(),
{
    if a.len() > 0 {
        assert(b.contains(a[0]));
        assert(a.contains(b[0]));
        let j = choose|j: int| 0 <= j < b.len() && b[j] == a[0];
        let i = choose|i: int| 0 <= i < a.len() && a[i] == b[0];
        lemma_lex_total(group_key(a[0]), group_key(b[0]));
        if j > 0 {
            assert(lex_lt(group_key(b[0]), group_key(b[j])));
            if i > 0 {
                assert(lex_lt(group_key(a[0]), group_key(a[i])));
            }
        }
        assert(j == 0);
        let (ta, tb) = (a.drop_first(), b.drop_first());
        assert forall|k: int| 0 <= k < ta.len() implies tb.contains(#[trigger] ta[k]) by {
            let x = ta[k];
            assert(x == a[k + 1]);
            assert(lex_lt(group_key(a[0]), group_key(a[k + 1])));
            lemma_lex_irreflexive(group_key(a[0]));
            assert(b.contains(x));
            let m = choose|m: int| 0 <= m < b.len() && b[m] == x;
            assert(m != 0);
            assert(tb[m - 1] == x);
        }
        assert forall|k: int| 0 <= k < tb.len() implies ta.contains(#[trigger] tb[k]) by {
            let x = tb[k];
            assert(x == b[k + 1]);
            assert(lex_lt(group_key(b[0]), group_key(b[k + 1])));
            lemma_lex_irreflexive(group_key(b[0]));
            assert(a.contains(x));
            let m = choose|m: int| 0 <= m < a.len() && a[m] == x;
            assert(m != 0);
            assert(ta[m - 1] == x);
        }
        assert(sorted_groups(ta)) by {
            assert forall|p: int, q: int| 0 <= p < q < ta.len() implies lex_lt(
                group_key(#[trigger] ta[p]),
                group_key(#[trigger] ta[q]),
            ) by {
                assert(ta[p] == a[p + 1] && ta[q] == a[q + 1]);
            }
        }
        assert(sorted_groups(tb)) by {
            assert forall|p: int, q: int| 0 <= p < q < tb.len() implies lex_lt(
                group_key(#[trigger] tb[p]),
                group_key(#[trigger] tb[q]),
            ) by {
                assert(tb[p] == b[p + 1] && tb[q] == b[q + 1]);
            }
        }
        lemma_sorted_same(ta, tb);
        assert(a =~= b) by {
            assert forall|k: int| 0 <= k < a.len() implies a[k] == b[k] by {
                if k > 0 {
                    assert(a[k] == ta[k - 1] && b[k] == tb[k - 1]);
                }
            }
        }
    }
}

/// A heap of files has one plan over a preset: the materials, sorted by
/// name, and the unmatched and conflicting files are decided by the files
/// and the preset alone.
pub proof fn law_plan_unique(files: Seq<Seq<char>>, preset: PresetView, p1: PlanView, p2: PlanView)
    requires
        is_plan(files, preset, p1),
        is_plan(files, preset, p2),
    ensures
        p1 == p2,
{
    let f = plan_fold(files, preset).groups;
    assert forall|k: int| 0 <= k < p1.groups.len() implies p2.groups.contains(#[trigger] p1.groups[k]) by {
        assert(f.contains(p1.groups[k]));
        let m = choose|m: int| 0 <= m < f.len() && f[m] == p1.groups[k];
        assert(p2.groups.contains(f[m]));
    }
    assert forall|k: int| 0 <= k < p2.groups.len() implies p1.groups.contains(#[trigger] p2.groups[k]) by {
        assert(f.contains(p2.groups[k]));
        let m = choose|m: int| 0 <= m < f.len() && f[m] == p2.groups[k];
        assert(p1.groups.contains(f[m]));
    }
    lemma_sorted_same(p1.groups, p2.groups);
}

proof fn lemma_fold_distinct(files: Seq<Seq<char>>, preset: PresetView)
    ensures
        distinct_keys(plan_fold(files, preset).groups),
    decreases files.len(),
{
    if files.len() > 0 {
        let d = files.drop_last();
        lemma_fold_distinct(d, preset);
        let st = plan_fold(d, preset);
        let path = files.last();
        let r = plan_fold(files, preset);
        match suffix_match(stem_of(path), preset) {
            None => {},
            Some(m) => {
                let base = if m.1.len() == 0 {
                    stem_of(path)
                } else {
                    m.1
                };
                let key = lowercase(base);
                lemma_find_group(st.groups, key);
                assert(forall|i: int|
                    0 <= i < st.groups.len() ==> group_key(#[trigger] r.groups[i]) == group_key(
                        st.groups[i],
                    ));
                if find_group(st.groups, key) is None {
                    assert(r.groups.len() == st.groups.len() + 1);
                    assert(group_key(r.groups[st.groups.len() as int]) == key);
                } else {
                    assert(r.groups.len() == st.groups.len());
                }
            },
        }
    }
}

proof fn lemma_groups_ms_remove(gs: Seq<GroupView>, j: int)
    requires
        0 <= j < gs.len(),
    ensures
        groups_ms(gs) == groups_ms(gs.remove(j)).add(files_ms(gs[j].files)),
    decreases gs.len(),
{
    broadcast use vstd::multiset::group_multiset_axioms;

    if j < gs.len() - 1 {
        let d = gs.drop_last();
        lemma_groups_ms_remove(d, j);
        assert(gs.remove(j).drop_last() =~= d.remove(j));
        assert(groups_ms(gs) =~= groups_ms(gs.remove(j)).add(files_ms(gs[j].files)));
    } else {
        assert(gs.remove(j) =~= gs.drop_last());
    }
}

proof fn lemma_same_groups_ms(a: Seq<GroupView>, b: Seq<GroupView>)
    requires
        same_groups(a, b),
        distinct_keys(a),
        distinct_keys(b),
    ensures
        groups_ms(a) == groups_ms(b),
    decreases b.len(),
{
    if b.len() > 0 {
        let n = b.len() - 1;
        let x = b[n];
        assert(a.contains(x));
        let j = choose|j: int| 0 <= j < a.len() && a[j] == x;
        let a2 = a.remove(j);
        let b2 = b.drop_last();
        lemma_groups_ms_remove(a, j);
        assert forall|i: int| 0 <= i < a2.len() implies b2.contains(#[trigger] a2[i]) by {
            let k = if i < j {
                i
            } else {
                i + 1
            };
            assert(a2[i] == a[k]);
            assert(b.contains(a[k]));
            let m = choose|m: int| 0 <= m < b.len() && b[m] == a[k];
            if m == n {
                assert(group_key(a[k]) == group_key(a[j]));
            }
            assert(b2[m] == a2[i]);
        }
        assert forall|i: int| 0 <= i < b2.len() implies a2.contains(#[trigger] b2[i]) by {
            assert(b2[i] == b[i]);
            assert(a.contains(b[i]));
            let k = choose|k: int| 0 <= k < a.len() && a[k] == b[i];
            if k == j {
                assert(group_key(b[i]) == group_key(b[n]));
            }
            let m = if k < j {
                k
            } else {
                k - 1
            };
            assert(a2[m] == b2[i]);
        }
        assert forall|p: int, q: int| 0 <= p < q < a2.len() implies group_key(#[trigger] a2[p])
            != group_key(#[trigger] a2[q]) by {
            let pp = if p < j {
                p
            } else {
                p + 1
            };
            let qq = if q < j {
                q
            } else {
                q + 1
            };
            assert(a2[p] == a[pp] && a2[q] == a[qq]);
        }
        assert forall|p: int, q: int| 0 <= p < q < b2.len() implies group_key(#[trigger] b2[p])
            != group_key(#[trigger] b2[q]) by {
            assert(b2[p] == b[p] && b2[q] == b[q]);
        }
        lemma_same_groups_ms(a2, b2);
    }
}

proof fn lemma_sorted_distinct(gs: Seq<GroupView>)
    requires
        sorted_groups(gs),
    ensures
        distinct_keys(gs),
{
    assert forall|i: int, j: int| 0 <= i < j < gs.len() implies group_key(#[trigger] gs[i])
        != group_key(#[trigger] gs[j]) by {
        lemma_lex_irreflexive(group_key(gs[i]));
    }
}

/// The plan of a heap of files places them by their suffixes: the unmatched
/// files are those no channel matches, in their order; every material holds
/// at least one file; and every file in a material is an input file whose
/// suffix picks that channel and whose material name has the material's key.
pub proof fn law_plan_places_by_suffix(files: Seq<Seq<char>>, preset: PresetView, p: PlanView)
    requires
        is_plan(files, preset, p),
    ensures
        p.unmatched == unmatched_of(files, preset),
        forall|i: int| 0 <= i < p.groups.len() ==> some_count((#[trigger] p.groups[i]).files) > 0,
        forall|i: int, c: int|
            0 <= i < p.groups.len() && 0 <= c < 4 && (#[trigger] p.groups[i].files[c]) is Some ==> {
                &&& file_fits(p.groups[i].files[c]->Some_0, preset, group_key(p.groups[i]), c)
                &&& files.contains(p.groups[i].files[c]->Some_0)
            },
{
    let f = plan_fold(files, preset);
    lemma_fold_places_by_suffix(files, preset);
    assert forall|i: int| 0 <= i < p.groups.len() implies some_count(
        (#[trigger] p.groups[i]).files,
    ) > 0 by {
        assert(f.groups.contains(p.groups[i]));
    }
    assert forall|i: int, c: int|
        0 <= i < p.groups.len() && 0 <= c < 4 && (#[trigger] p.groups[i].files[c]) is Some implies {
        &&& file_fits(p.groups[i].files[c]->Some_0, preset, group_key(p.groups[i]), c)
        &&& files.contains(p.groups[i].files[c]->Some_0)
    } by {
        assert(f.groups.contains(p.groups[i]));
        let k = choose|k: int| 0 <= k < f.groups.len() && f.groups[k] == p.groups[i];
        assert(f.groups[k].files[c] is Some);
    }
}

/// Every input file comes out of a plan exactly once, counted with repeats:
/// in a channel of a material, among the unmatched files, or among the
/// conflicts.
pub proof fn law_plan_keeps_every_file(files: Seq<Seq<char>>, preset: PresetView, p: PlanView)
    requires
        is_plan(files, preset, p),
    ensures
        groups_ms(p.groups).add(p.unmatched.to_multiset()).add(conflict_paths(p.conflicts).to_multiset())
            == files.to_multiset(),
{
    let f = plan_fold(files, preset);
    lemma_fold_keeps_every_file(files, preset);
    lemma_fold_distinct(files, preset);
    lemma_sorted_distinct(p.groups);
    lemma_same_groups_ms(p.groups, f.groups);
}

/// In a plan, a later file for a channel that a material already fills is a
/// conflict: it is an input file, its suffix picks that channel, the note
/// names its material and the channel letter, and the material keeps the
/// file it had.
pub proof fn law_later_files_conflict(files: Seq<Seq<char>>, preset: PresetView, p: PlanView)
    requires
        is_plan(files, preset, p),
    ensures
        forall|j: int|
            0 <= j < p.conflicts.len() ==> {
                let (path, note) = #[trigger] p.conflicts[j];
                &&& files.contains(path)
                &&& suffix_match(stem_of(path), preset) matches Some(m) && {
                    &&& note == base_of(path, preset) + " "@ + seq![m.0.letter_char()]
                    &&& taken_in(p.groups, lowercase(base_of(path, preset)), m.0.idx() as int)
                }
            },
{
    let f = plan_fold(files, preset);
    lemma_fold_conflicts(files, preset);
    assert forall|j: int| 0 <= j < p.conflicts.len() implies {
        let (path, note) = #[trigger] p.conflicts[j];
        &&& files.contains(path)
        &&& suffix_match(stem_of(path), preset) matches Some(m) && {
            &&& note == base_of(path, preset) + " "@ + seq![m.0.letter_char()]
            &&& taken_in(p.groups, lowercase(base_of(path, preset)), m.0.idx() as int)
        }
    } by {
        assert(p.conflicts[j] == f.conflicts[j]);
        let path = p.conflicts[j].0;
        let m = suffix_match(stem_of(path), preset)->Some_0;
        let key = lowercase(base_of(path, preset));
        let c = m.0.idx() as int;
        assert(taken_in(f.groups, key, c));
        let i = choose|i: int|
            0 <= i < f.groups.len() && group_key(#[trigger] f.groups[i]) == key
                && f.groups[i].files[c] is Some;
        assert(p.groups.contains(f.groups[i]));
        let k = choose|k: int| 0 <= k < p.groups.len() && p.groups[k] == f.groups[i];
        assert(group_key(p.groups[k]) == key && p.groups[k].files[c] is Some);
    }
}

/// Some file before position `j` fits channel `c` of the material with key `key`.
pub open spec fn fits_before(files: Seq<Seq<char>>, preset: PresetView, j: int, key: Seq<char>, c: int) -> bool {
    exists|k: int| 0 <= k < j && file_fits(#[trigger] files[k], preset, key, c)
}

/// The file at `j` is the first that fits channel `c` of the material with
/// key `key`.
pub open spec fn first_fit(files: Seq<Seq<char>>, preset: PresetView, j: int, key: Seq<char>, c: int) -> bool {
    &&& 0 <= j < files.len()
    &&& file_fits(files[j], preset, key, c)
    &&& !fits_before(files, preset, j, key, c)
}

/// Where the file at `j` goes: nowhere when no channel matches it; into its
/// material's channel when it is the first to fit there; among the conflicts,
/// with the note that names its material and channel, when an earlier file
/// fits there already.
pub open spec fn placed_as(p: PlanView, files: Seq<Seq<char>>, preset: PresetView, j: int) -> bool {
    let path = files[j];
    suffix_match(stem_of(path), preset) matches Some(m) ==> {
        let key = lowercase(base_of(path, preset));
        let c = m.0.idx() as int;
        if fits_before(files, preset, j, key, c) {
            p.conflicts.contains((path, base_of(path, preset) + " "@ + seq![m.0.letter_char()]))
        } else {
            exists|i: int|
                0 <= i < p.groups.len() && group_key(#[trigger] p.groups[i]) == key && p.groups[i].files[c]
                    == Some(path)
        }
    }
}

/// The file a material holds in a channel is the first input file to fit there.
pub open spec fn holds_first(p: PlanView, files: Seq<Seq<char>>, preset: PresetView) -> bool {
    forall|i: int, c: int|
        0 <= i < p.groups.len() && 0 <= c < 4 && (#[trigger] p.groups[i].files[c]) is Some ==> exists|j: int|
            first_fit(files, preset, j, group_key(p.groups[i]), c) && #[trigger] files[j]
                == p.groups[i].files[c]->Some_0
}

proof fn lemma_fits_before_prefix(
    d: Seq<Seq<char>>,
    path: Seq<char>,
    preset: PresetView,
    j: int,
    key: Seq<char>,
    c: int,
)
    requires
        0 <= j <= d.len(),
    ensures
        fits_before(d.push(path), preset, j, key, c) == fits_before(d, preset, j, key, c),
        fits_before(d.push(path), preset, d.len() + 1int, key, c) == (fits_before(d, preset, d.len() as int, key, c)
            || file_fits(path, preset, key, c)),
{
    let f = d.push(path);
    if fits_before(f, preset, j, key, c) {
        let k = choose|k: int| 0 <= k < j && file_fits(#[trigger] f[k], preset, key, c);
        assert(f[k] == d[k]);
    }
    if fits_before(d, preset, j, key, c) {
        let k = choose|k: int| 0 <= k < j && file_fits(#[trigger] d[k], preset, key, c);
        assert(f[k] == d[k]);
    }
    if fits_before(f, preset, d.len() + 1int, key, c) {
        let k = choose|k: int| 0 <= k < d.len() + 1 && file_fits(#[trigger] f[k], preset, key, c);
        if k < d.len() {
            assert(f[k] == d[k]);
        }
    }
    if fits_before(d, preset, d.len() as int, key, c) {
        let k = choose|k: int| 0 <= k < d.len() && file_fits(#[trigger] d[k], preset, key, c);
        assert(f[k] == d[k]);
    }
    if file_fits(path, preset, key, c) {
        assert(f[d.len() as int] == path);
    }
}

proof fn lemma_fold_first(files: Seq<Seq<char>>, preset: PresetView)
    ensures
        forall|key: Seq<char>, c: int|
            #![trigger taken_in(plan_fold(files, preset).groups, key, c)]
            #![trigger fits_before(files, preset, files.len() as int, key, c)]
            0 <= c < 4 ==> (taken_in(plan_fold(files, preset).groups, key, c) == fits_before(
                files,
                preset,
                files.len() as int,
                key,
                c,
            )),
        holds_first(plan_fold(files, preset), files, preset),
        forall|j: int| 0 <= j < files.len() ==> #[trigger] placed_as(plan_fold(files, preset), files, preset, j),
    decreases files.len(),
{
    if files.len() > 0 {
        let d = files.drop_last();
        let path = files.last();
        let st = plan_fold(d, preset);
        let r = plan_fold(files, preset);
        lemma_fold_first(d, preset);
        lemma_fold_four(d, preset);
        lemma_fold_distinct(d, preset);
        lemma_step_keeps(st, path, preset);
        assert(files == d.push(path));
        assert forall|k: int| 0 <= k < d.len() implies #[trigger] files[k] == d[k] by {}
        let n = d.len() as int;
        assert forall|key: Seq<char>, c: int, j: int| 0 <= j <= n implies #[trigger] fits_before(
            files,
            preset,
            j,
            key,
            c,
        ) == fits_before(d, preset, j, key, c) && fits_before(files, preset, n + 1, key, c) == (
        fits_before(d, preset, n, key, c) || file_fits(path, preset, key, c)) by {
            lemma_fits_before_prefix(d, path, preset, j, key, c);
        }
        // first fits in `d` are first fits in `files`
        assert forall|j: int, key: Seq<char>, c: int| #[trigger] first_fit(d, preset, j, key, c) implies first_fit(
            files,
            preset,
            j,
            key,
            c,
        ) by {
            assert(fits_before(files, preset, j, key, c) == fits_before(d, preset, j, key, c));
        }
        match suffix_match(stem_of(path), preset) {
            None => {
                assert(r.groups == st.groups && r.conflicts == st.conflicts);
                assert forall|key: Seq<char>, c: int| !file_fits(path, preset, key, c) by {}
                assert forall|key: Seq<char>, c: int| 0 <= c < 4 implies (taken_in(r.groups, key, c) == fits_before(
                    files,
                    preset,
                    files.len() as int,
                    key,
                    c,
                )) by {
                    assert(fits_before(files, preset, n + 1, key, c) == fits_before(d, preset, n, key, c));
                    assert(taken_in(st.groups, key, c) == fits_before(d, preset, n, key, c));
                }
                assert forall|i: int, c: int|
                    0 <= i < r.groups.len() && 0 <= c < 4 && (#[trigger] r.groups[i].files[c]) is Some implies exists|j: int|
                    first_fit(files, preset, j, group_key(r.groups[i]), c) && #[trigger] files[j]
                        == r.groups[i].files[c]->Some_0 by {
                    let j = choose|j: int|
                        first_fit(d, preset, j, group_key(st.groups[i]), c) && #[trigger] d[j]
                            == st.groups[i].files[c]->Some_0;
                    assert(first_fit(files, preset, j, group_key(r.groups[i]), c));
                    assert(files[j] == d[j]);
                }
                assert forall|j: int| 0 <= j < files.len() implies #[trigger] placed_as(r, files, preset, j) by {
                    if j < n {
                        assert(placed_as(st, d, preset, j));
                        assert(files[j] == d[j]);
                        let m = suffix_match(stem_of(d[j]), preset);
                        if let Some(m) = m {
                            let key = lowercase(base_of(d[j], preset));
                            let c = m.0.idx() as int;
                            assert(fits_before(files, preset, j, key, c) == fits_before(d, preset, j, key, c));
                        }
                    }
                }
            },
            Some(m) => {
                let stem = stem_of(path);
                let base = if m.1.len() == 0 {
                    stem
                } else {
                    m.1
                };
                let key = lowercase(base);
                let c = m.0.idx() as int;
                let note = base + " "@ + seq![m.0.letter_char()];
                assert(base_of(path, preset) == base);
                assert(0 <= c < 4);
                assert(file_fits(path, preset, key, c));
                assert forall|key2: Seq<char>, c2: int| #[trigger] file_fits(path, preset, key2, c2) implies key2 == key
                    && c2 == c by {}
                lemma_find_group(st.groups, key);
                let at = match find_group(st.groups, key) {
                    Some(i) => i,
                    None => st.groups.len() as int,
                };
                let groups = match find_group(st.groups, key) {
                    Some(_) => st.groups,
                    None => st.groups.push(new_group(base)),
                };
                assert forall|i: int| 0 <= i < st.groups.len() implies #[trigger] groups[i] == st.groups[i] by {}
                assert(group_key(groups[at]) == key);
                assert(groups[at].files.len() == 4) by {
                    if find_group(st.groups, key) is None {
                        assert(groups[at] == new_group(base));
                    }
                }
                let taken = taken_in(st.groups, key, c);
                if taken {
                    let w = choose|w: int|
                        0 <= w < st.groups.len() && group_key(#[trigger] st.groups[w]) == key
                            && st.groups[w].files[c] is Some;
                    assert(find_group(st.groups, key) is Some);
                    assert(w == at);
                    assert(r.groups == st.groups);
                    assert(r.conflicts == st.conflicts.push((path, note)));
                } else {
                    assert(groups[at].files[c] is None) by {
                        if find_group(st.groups, key) is Some {
                            if groups[at].files[c] is Some {
                                assert(taken_in(st.groups, key, c));
                            }
                        }
                    }
                    let g = GroupView { files: groups[at].files.update(c, Some(path)), ..groups[at] };
                    assert(r.groups == groups.update(at, g));
                    assert(r.conflicts == st.conflicts);
                }
                // taken matches fits
                assert forall|key2: Seq<char>, c2: int| 0 <= c2 < 4 implies (taken_in(r.groups, key2, c2) == fits_before(
                    files,
                    preset,
                    files.len() as int,
                    key2,
                    c2,
                )) by {
                    assert(fits_before(files, preset, n + 1, key2, c2) == (fits_before(d, preset, n, key2, c2)
                        || file_fits(path, preset, key2, c2)));
                    assert(taken_in(st.groups, key2, c2) == fits_before(d, preset, n, key2, c2));
                    if taken_in(st.groups, key2, c2) {
                        let w = choose|w: int|
                            0 <= w < st.groups.len() && group_key(#[trigger] st.groups[w]) == key2
                                && st.groups[w].files[c2] is Some;
                        assert(group_key(r.groups[w]) == key2 && r.groups[w].files[c2] is Some);
                    }
                    if key2 == key && c2 == c {
                        if !taken {
                            assert(group_key(r.groups[at]) == key && r.groups[at].files[c] is Some);
                        }
                    } else if taken_in(r.groups, key2, c2) {
                        let w = choose|w: int|
                            0 <= w < r.groups.len() && group_key(#[trigger] r.groups[w]) == key2
                                && r.groups[w].files[c2] is Some;
                        if taken {
                            assert(taken_in(st.groups, key2, c2));
                        } else if w == at && at == st.groups.len() {
                            assert(r.groups[w].files[c2] == new_group(base).files[c2]);
                        } else if w == at {
                            assert(r.groups[w].files[c2] == st.groups[w].files[c2]);
                            assert(taken_in(st.groups, key2, c2));
                        } else {
                            assert(r.groups[w] == st.groups[w]);
                            assert(taken_in(st.groups, key2, c2));
                        }
                    }
                }
                // each slot holds the first file to fit
                assert forall|i: int, c2: int|
                    0 <= i < r.groups.len() && 0 <= c2 < 4 && (#[trigger] r.groups[i].files[c2]) is Some implies exists|j: int|
                    first_fit(files, preset, j, group_key(r.groups[i]), c2) && #[trigger] files[j]
                        == r.groups[i].files[c2]->Some_0 by {
                    if !taken && i == at && c2 == c {
                        assert(!fits_before(d, preset, n, key, c));
                        assert(fits_before(files, preset, n, key, c) == fits_before(d, preset, n, key, c));
                        assert(first_fit(files, preset, n, key, c));
                        assert(files[n] == path);
                    } else {
                        assert(i < st.groups.len()) by {
                            if i >= st.groups.len() {
                                assert(!taken && i == at);
                                assert(r.groups[i].files[c2] == new_group(base).files[c2]);
                            }
                        }
                        assert(r.groups[i].files[c2] == st.groups[i].files[c2]) by {
                            if !taken && i == at {
                                assert(c2 != c);
                            }
                        }
                        assert(group_key(r.groups[i]) == group_key(st.groups[i]));
                        let j = choose|j: int|
                            first_fit(d, preset, j, group_key(st.groups[i]), c2) && #[trigger] d[j]
                                == st.groups[i].files[c2]->Some_0;
                        assert(first_fit(files, preset, j, group_key(st.groups[i]), c2));
                        assert(files[j] == d[j]);
                    }
                }
                // where each file goes
                assert forall|j: int| 0 <= j < files.len() implies #[trigger] placed_as(r, files, preset, j) by {
                    if j == n {
                        assert(files[j] == path);
                        assert(fits_before(files, preset, n, key, c) == fits_before(d, preset, n, key, c));
                        assert(taken == fits_before(d, preset, n, key, c));
                        if taken {
                            assert(r.conflicts[st.conflicts.len() as int] == (path, note));
                        } else {
                            assert(group_key(r.groups[at]) == key && r.groups[at].files[c] == Some(path));
                        }
                    } else {
                        assert(placed_as(st, d, preset, j));
                        assert(files[j] == d[j]);
                        if let Some(m2) = suffix_match(stem_of(d[j]), preset) {
                            let key2 = lowercase(base_of(d[j], preset));
                            let c2 = m2.0.idx() as int;
                            let note2 = base_of(d[j], preset) + " "@ + seq![m2.0.letter_char()];
                            assert(fits_before(files, preset, j, key2, c2) == fits_before(d, preset, j, key2, c2));
                            if fits_before(d, preset, j, key2, c2) {
                                let q = choose|q: int| 0 <= q < st.conflicts.len() && st.conflicts[q] == (d[j], note2);
                                assert(r.conflicts[q] == st.conflicts[q]);
                            } else {
                                let w = choose|w: int|
                                    0 <= w < st.groups.len() && group_key(#[trigger] st.groups[w]) == key2
                                        && st.groups[w].files[c2] == Some(d[j]);
                                assert(0 <= c2 < 4);
                                assert(group_key(r.groups[w]) == key2 && r.groups[w].files[c2] == Some(d[j]));
                            }
                        }
                    }
                }
            },
        }
    }
}

/// In a plan, each material keeps in a channel the first input file that
/// fits there, and every input file goes where it belongs: a later file for
/// the same material and channel becomes a conflict, with the note that
/// names its material and the channel letter.
pub proof fn law_first_file_wins(files: Seq<Seq<char>>, preset: PresetView, p: PlanView)
    requires
        is_plan(files, preset, p),
    ensures
        holds_first(p, files, preset),
        forall|j: int| 0 <= j < files.len() ==> #[trigger] placed_as(p, files, preset, j),
{
    let f = plan_fold(files, preset);
    lemma_fold_first(files, preset);
    assert forall|i: int, c: int|
        0 <= i < p.groups.len() && 0 <= c < 4 && (#[trigger] p.groups[i].files[c]) is Some implies exists|j: int|
        first_fit(files, preset, j, group_key(p.groups[i]), c) && #[trigger] files[j] == p.groups[i].files[c]->Some_0 by {
        assert(f.groups.contains(p.groups[i]));
        let k = choose|k: int| 0 <= k < f.groups.len() && f.groups[k] == p.groups[i];
        assert(f.groups[k].files[c] is Some);
    }
    assert forall|j: int| 0 <= j < files.len() implies #[trigger] placed_as(p, files, preset, j) by {
        assert(placed_as(f, files, preset, j));
        if let Some(m) = suffix_match(stem_of(files[j]), preset) {
            let key = lowercase(base_of(files[j], preset));
            let c = m.0.idx() as int;
            if !fits_before(files, preset, j, key, c) {
                let w = choose|w: int|
                    0 <= w < f.groups.len() && group_key(#[trigger] f.groups[w]) == key && f.groups[w].files[c]
                        == Some(files[j]);
                assert(p.groups.contains(f.groups[w]));
                let k = choose|k: int| 0 <= k < p.groups.len() && p.groups[k] == f.groups[w];
                assert(group_key(p.groups[k]) == key);
            }
        }
    }
}

proof fn lemma_find_group_first(gs: Seq<GroupView>, key: Seq<char>, i: int)
    requires
        0 <= i < gs.len(),
        group_key(gs[i]) == key,
        forall|k: int| 0 <= k < i ==> group_key(#[trigger] gs[k]) != key,
    ensures
        find_group(gs, key) == Some(i),
    decreases gs.len(),
{
    let d = gs.drop_last();
    assert forall|k: int| 0 <= k < d.len() implies #[trigger] d[k] == gs[k] by {}
    if i < gs.len() - 1 {
        lemma_find_group_first(d, key, i);
    } else {
        lemma_find_group(d, key);
        if let Some(j) = find_group(d, key) {
            assert(group_key(gs[j]) == key);
        }
    }
}

/// `keys` holds the key of each material, in order.
pub open spec fn keys_match(keys: Seq<Vec<char>>, groups: Seq<Group>) -> bool {
    &&& keys.len() == groups.len()
    &&& forall|k: int| 0 <= k < keys.len() ==> #[trigger] keys[k]@ == group_key(groups[k]@)
}

fn find_key(keys: &Vec<Vec<char>>, key: &Vec<char>, groups: &Vec<Group>) -> (r: Option<usize>)
    requires
        keys_match(keys@, groups@),
    ensures
        r matches Some(i) ==> find_group(groups_view(groups@), key@) == Some(i as int),
        r is None ==> find_group(groups_view(groups@), key@) is None,
{
    let ghost gs = groups_view(groups@);
    let mut i: usize = 0;
    while i < keys.len()
        invariant
            i <= keys.len(),
            keys_match(keys@, groups@),
            gs == groups_view(groups@),
            forall|k: int| 0 <= k < i ==> group_key(#[trigger] gs[k]) != key@,
        decreases keys.len() - i,
    {
        assert(gs[i as int] == groups@[i as int]@);
        if same_chars(&keys[i], key) {
            proof {
                lemma_find_group_first(gs, key@, i as int);
            }
            return Some(i);
        }
        i += 1;
    }
    proof {
        lemma_find_group(gs, key@);
        if let Some(j) = find_group(gs, key@) {
            assert(group_key(gs[j]) == key@);
        }
    }
    None
}

pub(crate) fn copy_group(g: &Group) -> (r: Group)
    ensures
        r@ == g@,
{
    let mut files: [Option<String>; 4] = [None, None, None, None];
    let mut i: usize = 0;
    while i < 4
        invariant
            i <= 4,
            forall|k: int| 0 <= k < i ==> opt_chars(#[trigger] files@[k]) == opt_chars(g.files@[k]),
        decreases 4 - i,
    {
        files[i] = match &g.files[i] {
            Some(s) => Some(s.clone()),
            None => None,
        };
        i += 1;
    }
    let r = Group { base: g.base.clone(), files };
    assert(r@.files =~= g@.files);
    r
}

fn empty_group(base: String) -> (r: Group)
    ensures
        r@ == new_group(base@),
{
    let r = Group { base, files: [None, None, None, None] };
    assert(r@.files =~= seq![None, None, None, None]);
    r
}

/// Put one file into the plan being built.
fn place_file(path: &String, preset: &Preset, plan: &mut Plan, keys: &mut Vec<Vec<char>>)
    requires
        keys_match(old(keys)@, old(plan).groups@),
        distinct_keys(old(plan)@.groups),
    ensures
        keys_match(final(keys)@, final(plan).groups@),
        distinct_keys(final(plan)@.groups),
        final(plan)@ == plan_step(old(plan)@, path@, preset@),
{
    let ghost before = plan@;
    let stem = match file_stem(path.as_str()) {
        Some(s) => s,
        None => String::new(),
    };
    assert(stem@ == stem_of(path@));
    match match_suffix(stem.as_str(), preset) {
        None => {
            plan.unmatched.push(path.clone());
            assert(plan@.unmatched =~= before.unmatched.push(path@));
            assert(plan@ == plan_step(before, path@, preset@));
        },
        Some(m) => {
            let base = if m.base.as_str().is_empty() {
                stem.clone()
            } else {
                m.base
            };
            let key = chars_of(to_lowercase(base.as_str()).as_str());
            let gv = Ghost(before.groups);
            proof {
                lemma_find_group(gv@, key@);
            }
            let at = match find_key(keys, &key, &plan.groups) {
                Some(at) => at,
                None => {
                    plan.groups.push(empty_group(base.clone()));
                    keys.push(key);
                    proof {
                        let ng = plan@.groups;
                        assert(ng =~= gv@.push(new_group(base@)));
                        assert forall|a: int, b: int|
                            0 <= a < b < ng.len() implies group_key(#[trigger] ng[a])
                            != group_key(#[trigger] ng[b]) by {
                            assert(ng[a] == gv@[a]);
                            if b < ng.len() - 1 {
                                assert(ng[b] == gv@[b]);
                            }
                        }
                        assert forall|k: int| 0 <= k < keys@.len() implies #[trigger] keys@[k]@
                            == group_key(plan.groups@[k]@) by {
                            assert(plan.groups@[k]@ == ng[k]);
                        }
                    }
                    plan.groups.len() - 1
                },
            };
            let ci = m.channel.index();
            let ghost g2 = plan@.groups;
            assert(g2[at as int] == plan.groups@[at as int]@);
            assert(g2[at as int].files[ci as int] == opt_chars(
                plan.groups@[at as int].files@[ci as int],
            ));
            if plan.groups[at].files[ci].is_some() {
                let mut msg = chars_of(base.as_str());
                msg.push(' ');
                let letter = chars_of(m.channel.letter());
                crate::text::append(&mut msg, &letter);
                proof {
                    reveal_strlit(" ");
                    assert(msg@ =~= base@ + " "@ + seq![m.channel.letter_char()]);
                }
                plan.conflicts.push((path.clone(), string_of(msg.as_slice())));
                assert(plan@.conflicts =~= before.conflicts.push(
                    (path@, base@ + " "@ + seq![m.channel.letter_char()]),
                ));
                assert(plan@ == plan_step(before, path@, preset@));
            } else {
                let mut g = empty_group(String::new());
                plan.groups.set_and_swap(at, &mut g);
                g.files[ci] = Some(path.clone());
                let ghost g_view = g@;
                plan.groups.set(at, g);
                proof {
                    let ng = plan@.groups;
                    assert(g_view.files =~= g2[at as int].files.update(ci as int, Some(path@)));
                    assert(ng =~= g2.update(
                        at as int,
                        GroupView {
                            files: g2[at as int].files.update(ci as int, Some(path@)),
                            ..g2[at as int]
                        },
                    ));
                    assert forall|a: int, b: int|
                        0 <= a < b < ng.len() implies group_key(#[trigger] ng[a]) != group_key(
                        #[trigger] ng[b],
                    ) by {
                        assert(group_key(ng[a]) == group_key(g2[a]));
                        assert(group_key(ng[b]) == group_key(g2[b]));
                    }
                    assert forall|k: int| 0 <= k < keys@.len() implies #[trigger] keys@[k]@
                        == group_key(plan.groups@[k]@) by {
                        assert(plan.groups@[k]@ == ng[k]);
                        assert(group_key(ng[k]) == group_key(g2[k]));
                        assert(g2[k] == old(plan).groups@[k]@ || k == g2.len() - 1);
                    }
                    assert(plan@ == plan_step(before, path@, preset@));
                }
            }
        },
    }
}

/// Insert a material into materials sorted by key, at its place.
fn insert_sorted(sorted: &mut Vec<Group>, skeys: &mut Vec<Vec<char>>, g: Group, key: Vec<char>) -> (p:
    usize)
    requires
        keys_match(old(skeys)@, old(sorted)@),
        sorted_groups(groups_view(old(sorted)@)),
        key@ == group_key(g@),
        forall|q: int| 0 <= q < old(sorted)@.len() ==> group_key(#[trigger] old(sorted)@[q]@) != key@,
    ensures
        p <= old(sorted)@.len(),
        final(sorted)@ == old(sorted)@.insert(p as int, g),
        keys_match(final(skeys)@, final(sorted)@),
        sorted_groups(groups_view(final(sorted)@)),
{
    let ghost sv = groups_view(sorted@);
    let ghost k = key@;
    let mut p: usize = 0;
    while p < sorted.len() && !chars_lt(&key, &skeys[p])
        invariant
            p <= sorted@.len(),
            keys_match(skeys@, sorted@),
            sv == groups_view(sorted@),
            k == key@,
            forall|q: int| 0 <= q < p ==> !lex_lt(k, #[trigger] skeys@[q]@),
        decreases sorted.len() - p,
    {
        p += 1;
    }
    proof {
        assert forall|q: int| 0 <= q < p implies lex_lt(group_key(#[trigger] sv[q]), k) by {
            assert(sv[q] == sorted@[q]@);
            assert(skeys@[q]@ == group_key(sv[q]));
            lemma_lex_total(group_key(sv[q]), k);
        }
        if p < sorted@.len() {
            assert(skeys@[p as int]@ == group_key(sv[p as int]));
            assert forall|q: int| p <= q < sv.len() implies lex_lt(k, group_key(#[trigger] sv[q])) by {
                if q > p {
                    lemma_lex_transitive(k, group_key(sv[p as int]), group_key(sv[q]));
                }
            }
        }
    }
    let ghost gv = g@;
    sorted.insert(p, g);
    skeys.insert(p, key);
    proof {
        let nv = groups_view(sorted@);
        assert(nv =~= sv.insert(p as int, gv));
        assert forall|a: int, b: int|
            0 <= a < b < nv.len() implies lex_lt(
            group_key(#[trigger] nv[a]),
            group_key(#[trigger] nv[b]),
        ) by {
            if b < p {
                assert(nv[a] == sv[a] && nv[b] == sv[b]);
            } else if b == p {
                assert(nv[a] == sv[a] && nv[b] == gv);
            } else if a < p {
                assert(nv[a] == sv[a] && nv[b] == sv[b - 1]);
                lemma_lex_transitive(group_key(sv[a]), k, group_key(sv[b - 1]));
            } else if a == p {
                assert(nv[a] == gv && nv[b] == sv[b - 1]);
            } else {
                assert(nv[a] == sv[a - 1] && nv[b] == sv[b - 1]);
            }
        }
        assert forall|q: int| 0 <= q < skeys@.len() implies #[trigger] skeys@[q]@ == group_key(
            sorted@[q]@,
        ) by {
            assert(sorted@[q]@ == nv[q]);
        }
    }
    p
}

/// Some element of `s` has the value `g`.
pub open spec fn holds(s: Seq<Group>, g: GroupView) -> bool {
    exists|q: int| 0 <= q < s.len() && s[q]@ == g
}

/// Inserting the material `j` keeps "the same materials as the first `j`"
/// true for `j + 1`.
proof fn lemma_insert_same(folded: Seq<GroupView>, s: Seq<Group>, p: int, g: Group, j: int)
    requires
        0 <= j < folded.len(),
        0 <= p <= s.len(),
        g@ == folded[j],
        forall|k: int| 0 <= k < j ==> holds(s, #[trigger] folded[k]),
        forall|q: int| 0 <= q < s.len() ==> folded.take(j).contains(#[trigger] s[q]@),
    ensures
        forall|k: int| 0 <= k < j + 1 ==> holds(s.insert(p, g), #[trigger] folded[k]),
        forall|q: int|
            0 <= q < s.len() + 1 ==> folded.take(j + 1).contains(#[trigger] s.insert(p, g)[q]@),
{
    let t = s.insert(p, g);
    assert forall|k: int| 0 <= k < j + 1 implies holds(t, #[trigger] folded[k]) by {
        if k == j {
            assert(t[p] == g);
        } else {
            assert(holds(s, folded[k]));
            let q = choose|q: int| 0 <= q < s.len() && s[q]@ == folded[k];
            if q < p {
                assert(t[q] == s[q]);
            } else {
                assert(t[q + 1] == s[q]);
            }
        }
    }
    assert forall|q: int| 0 <= q < s.len() + 1 implies folded.take(j + 1).contains(
        #[trigger] t[q]@,
    ) by {
        if q == p {
            assert(folded.take(j + 1)[j] == g@);
        } else {
            let q0 = if q < p {
                q
            } else {
                q - 1
            };
            assert(t[q] == s[q0]);
            assert(folded.take(j).contains(s[q0]@));
            let k = choose|k: int| 0 <= k < j && folded.take(j)[k] == s[q0]@;
            assert(folded.take(j + 1)[k] == folded.take(j)[k]);
        }
    }
}

/// The materials in order of their keys.
fn sort_groups(groups: &Vec<Group>, keys: &Vec<Vec<char>>) -> (r: Vec<Group>)
    requires
        keys_match(keys@, groups@),
        distinct_keys(groups_view(groups@)),
    ensures
        sorted_groups(groups_view(r@)),
        same_groups(groups_view(r@), groups_view(groups@)),
{
    let ghost folded = groups_view(groups@);
    let mut sorted: Vec<Group> = Vec::new();
    let mut skeys: Vec<Vec<char>> = Vec::new();
    let mut j: usize = 0;
    while j < groups.len()
        invariant
            j <= groups.len(),
            keys_match(keys@, groups@),
            folded == groups_view(groups@),
            distinct_keys(folded),
            keys_match(skeys@, sorted@),
            sorted@.len() == j,
            sorted_groups(groups_view(sorted@)),
            forall|k: int| 0 <= k < j ==> holds(sorted@, #[trigger] folded[k]),
            forall|q: int| 0 <= q < sorted@.len() ==> folded.take(j as int).contains(#[trigger] sorted@[q]@),
        decreases groups.len() - j,
    {
        let ghost old_sorted = sorted@;
        let g = copy_group(&groups[j]);
        let key = chars_of(string_of(keys[j].as_slice()).as_str());
        proof {
            assert(folded[j as int] == groups@[j as int]@);
            assert forall|q: int| 0 <= q < sorted@.len() implies group_key(#[trigger] sorted@[q]@)
                != key@ by {
                assert(folded.take(j as int).contains(sorted@[q]@));
                let k = choose|k: int| 0 <= k < j && folded.take(j as int)[k] == sorted@[q]@;
                assert(folded[k] == sorted@[q]@);
                assert(group_key(folded[k]) != group_key(folded[j as int]));
            }
        }
        let ghost gg = g;
        let p = insert_sorted(&mut sorted, &mut skeys, g, key);
        proof {
            lemma_insert_same(folded, old_sorted, p as int, gg, j as int);
        }
        j += 1;
    }
    proof {
        let rv = groups_view(sorted@);
        assert(folded.take(folded.len() as int) == folded);
        assert forall|i: int| 0 <= i < rv.len() implies folded.contains(#[trigger] rv[i]) by {
            assert(rv[i] == sorted@[i]@);
            assert(folded.contains(sorted@[i]@));
        }
        assert forall|j: int| 0 <= j < folded.len() implies rv.contains(#[trigger] folded[j]) by {
            assert(holds(sorted@, folded[j]));
            let i = choose|i: int| 0 <= i < sorted@.len() && sorted@[i]@ == folded[j];
            assert(rv[i] == sorted@[i]@);
        }
        assert(rv.len() == folded.len());
    }
    sorted
}

/// Sort a heap of files into materials by the preset's suffixes. Materials
/// come in order of their name (in lowercase).
pub fn plan(files: &[String], preset: &Preset) -> (r: Plan)
    ensures
        is_plan(strings_of(files@), preset@, r@),
{
    let ghost fs = strings_of(files@);
    let mut p = Plan { groups: Vec::new(), unmatched: Vec::new(), conflicts: Vec::new() };
    let mut keys: Vec<Vec<char>> = Vec::new();
    assert(p@.groups =~= Seq::empty());
    assert(p@.unmatched =~= Seq::empty());
    assert(p@.conflicts =~= Seq::empty());
    assert(fs.take(0) =~= Seq::empty());
    let mut i: usize = 0;
    while i < files.len()
        invariant
            i <= files.len(),
            fs == strings_of(files@),
            keys_match(keys@, p.groups@),
            distinct_keys(p@.groups),
            plan_fold(fs.take(i as int), preset@) == p@,
        decreases files.len() - i,
    {
        assert(fs.take(i + 1).drop_last() == fs.take(i as int));
        assert(fs.take(i + 1).last() == files@[i as int]@);
        place_file(&files[i], preset, &mut p, &mut keys);
        i += 1;
    }
    assert(fs.take(files.len() as int) == fs);
    let sorted = sort_groups(&p.groups, &keys);
    Plan { groups: sorted, unmatched: p.unmatched, conflicts: p.conflicts }
}

/// How many channels of a material that go into the file have a map.
pub open spec fn filled_count(files: Seq<Option<Seq<char>>>, chans: Seq<Channel>) -> nat
    decreases chans.len(),
{
    if chans.len() == 0 {
        0
    } else {
        filled_count(files, chans.drop_last()) + if files[chans.last().idx() as int] is Some {
            1nat
        } else {
            0nat
        }
    }
}

/// How many channels of the material are filled, counting those the preset
/// writes: shown in the table.
pub fn filled(group: &Group, preset: &Preset) -> (r: usize)
    ensures
        r == filled_count(group@.files, channels_of(preset.alpha)),
        r <= channels_of(preset.alpha).len(),
{
    let chans = preset.channels();
    let mut n: usize = 0;
    let mut i: usize = 0;
    while i < chans.len()
        invariant
            i <= chans.len(),
            chans@ == channels_of(preset.alpha),
            n == filled_count(group@.files, chans@.take(i as int)),
            n <= i,
        decreases chans.len() - i,
    {
        assert(chans@.take(i + 1).drop_last() == chans@.take(i as int));
        assert(group@.files[chans@[i as int].idx() as int] == opt_chars(
            group.files@[chans@[i as int].idx() as int],
        ));
        if group.files[chans[i].index()].is_some() {
            n += 1;
        }
        i += 1;
    }
    assert(chans@.take(chans.len() as int) == chans@);
    n
}

/// What the background worker needs to pack a batch.
pub struct Job {
    pub groups: Vec<Group>,
    pub preset: Preset,
    pub template: String,
    pub format: OutputFormat,
    pub sixteen: bool,
    pub policy: SizePolicy,
    pub custom: (u32, u32),
    pub out_dir: String,
    pub overwrite: bool,
}

/// How a log line reads.
#[derive(Clone, Copy, PartialEq, Eq, Debug, Structural)]
pub enum LogLevel {
    Info,
    Success,
    Warn,
    Error,
}

/// What the worker reports.
pub enum Event {
    Log(LogLevel, String),
    /// A material is done: its number, and whether it worked.
    Done(usize, bool),
    Finished,
}

// ------------------------------------------------------------ file lists

/// The first place in `v` holding a path that `x` sorts before; the end if none.
pub open spec fn place_of(v: Seq<Seq<char>>, x: Seq<char>) -> nat
    decreases v.len(),
{
    if v.len() == 0 {
        0
    } else if path_less(x, v[0]) {
        0
    } else {
        1 + place_of(v.drop_first(), x)
    }
}

pub proof fn lemma_place_of(v: Seq<Seq<char>>, x: Seq<char>)
    ensures
        place_of(v, x) <= v.len(),
    decreases v.len(),
{
    if v.len() > 0 {
        lemma_place_of(v.drop_first(), x);
    }
}

/// `v` sorted by putting each path after those it does not sort before:
/// paths that compare equal keep their order.
pub open spec fn sorted_paths(v: Seq<Seq<char>>) -> Seq<Seq<char>>
    decreases v.len(),
{
    if v.len() == 0 {
        v
    } else {
        let s = sorted_paths(v.drop_last());
        s.insert(place_of(s, v.last()) as int, v.last())
    }
}

/// `v` without a path equal to the one kept before it.
pub open spec fn deduped(v: Seq<Seq<char>>) -> Seq<Seq<char>>
    decreases v.len(),
{
    if v.len() == 0 {
        v
    } else {
        let d = deduped(v.drop_last());
        if d.len() > 0 && paths_equal(v.last(), d.last()) {
            d
        } else {
            d.push(v.last())
        }
    }
}

/// A deduplicated list never holds two equal paths side by side, and keeps
/// the first path of the list.
pub proof fn law_deduped_no_repeats(v: Seq<Seq<char>>)
    ensures
        forall|i: int|
            0 <= i < deduped(v).len() - 1 ==> !paths_equal(
                #[trigger] deduped(v)[i + 1],
                deduped(v)[i],
            ),
        v.len() > 0 ==> deduped(v).len() > 0 && deduped(v)[0] == v[0],
    decreases v.len(),
{
    if v.len() > 0 {
        let d = deduped(v.drop_last());
        law_deduped_no_repeats(v.drop_last());
        if v.len() == 1 {
            assert(d.len() == 0);
        }
    }
}

/// No path of `v` sorts before one that comes earlier.
pub open spec fn sorted_le(v: Seq<Seq<char>>) -> bool {
    forall|i: int, j: int| 0 <= i < j < v.len() ==> !path_less(#[trigger] v[j], #[trigger] v[i])
}

/// Each path of `v` sorts before every later one: sorted, with no two equal.
pub open spec fn strictly_sorted(v: Seq<Seq<char>>) -> bool {
    forall|i: int, j: int| 0 <= i < j < v.len() ==> path_less(#[trigger] v[i], #[trigger] v[j])
}

fn place_in(v: &Vec<String>, x: &String) -> (j: usize)
    ensures
        j == place_of(strings_view(v@), x@),
        j <= v.len(),
        forall|k: int| 0 <= k < j ==> !path_less(x@, #[trigger] strings_view(v@)[k]),
        j < v.len() ==> path_less(x@, strings_view(v@)[j as int]) && !path_less(
            strings_view(v@)[j as int],
            x@,
        ) && forall|c: Seq<char>|
            #[trigger] path_less(c, x@) ==> path_less(c, strings_view(v@)[j as int]),
{
    let ghost sv = strings_view(v@);
    let mut j: usize = 0;
    assert(sv.skip(0) == sv);
    while j < v.len()
        invariant
            j <= v.len(),
            sv == strings_view(v@),
            place_of(sv, x@) == j + place_of(sv.skip(j as int), x@),
            forall|k: int| 0 <= k < j ==> !path_less(x@, #[trigger] sv[k]),
        decreases v.len() - j,
    {
        assert(sv.skip(j as int)[0] == v@[j as int]@);
        assert(sv.skip(j as int).drop_first() == sv.skip(j + 1));
        if less(x.as_str(), v[j].as_str()) {
            return j;
        }
        j += 1;
    }
    assert(sv.skip(v.len() as int).len() == 0);
    j
}

proof fn lemma_insert_sorted(before: Seq<Seq<char>>, j: int, x: Seq<char>)
    requires
        sorted_le(before),
        0 <= j <= before.len(),
        forall|k: int| 0 <= k < j ==> !path_less(x, #[trigger] before[k]),
        j < before.len() ==> path_less(x, before[j]) && !path_less(before[j], x) && forall|c: Seq<char>|
            #[trigger] path_less(c, x) ==> path_less(c, before[j]),
    ensures
        sorted_le(before.insert(j, x)),
{
    let ns = before.insert(j, x);
    assert forall|p: int, q: int| 0 <= p < q < ns.len() implies !path_less(#[trigger] ns[q], #[trigger] ns[p]) by {
        if q < j {
            assert(ns[p] == before[p] && ns[q] == before[q]);
        } else if q == j {
            assert(ns[p] == before[p] && ns[q] == x);
        } else if p < j {
            assert(ns[p] == before[p] && ns[q] == before[q - 1]);
        } else if p == j {
            assert(ns[p] == x && ns[q] == before[q - 1]);
            if path_less(before[q - 1], x) {
                assert(path_less(before[q - 1], before[j]));
                if q - 1 > j {
                    assert(!path_less(before[q - 1], before[j]));
                }
            }
        } else {
            assert(ns[p] == before[p - 1] && ns[q] == before[q - 1]);
        }
    }
}

/// The files sorted as paths, each once: how file lists are kept.
pub fn sorted_unique(files: &Vec<String>) -> (r: Vec<String>)
    ensures
        strings_view(r@) == deduped(sorted_paths(strings_view(files@))),
        strictly_sorted(strings_view(r@)),
{
    let ghost fv = strings_view(files@);
    let mut s: Vec<String> = Vec::new();
    let mut i: usize = 0;
    assert(fv.take(0).len() == 0);
    while i < files.len()
        invariant
            i <= files.len(),
            fv == strings_view(files@),
            strings_view(s@) == sorted_paths(fv.take(i as int)),
            sorted_le(strings_view(s@)),
        decreases files.len() - i,
    {
        assert(fv.take(i + 1).drop_last() == fv.take(i as int));
        assert(fv.take(i + 1).last() == files@[i as int]@);
        let j = place_in(&s, &files[i]);
        let ghost before = strings_view(s@);
        s.insert(j, files[i].clone());
        assert(strings_view(s@) =~= before.insert(j as int, files@[i as int]@));
        proof {
            lemma_insert_sorted(before, j as int, files@[i as int]@);
        }
        i += 1;
    }
    assert(fv.take(files.len() as int) == fv);
    let ghost sv = strings_view(s@);
    let mut r: Vec<String> = Vec::new();
    let mut k: usize = 0;
    assert(sv.take(0).len() == 0);
    while k < s.len()
        invariant
            k <= s.len(),
            sv == strings_view(s@),
            strings_view(r@) == deduped(sv.take(k as int)),
            sorted_le(sv),
            strictly_sorted(strings_view(r@)),
            r.len() > 0 ==> forall|m: int|
                k <= m < sv.len() ==> !path_less(#[trigger] sv[m], strings_view(r@).last()),
        decreases s.len() - k,
    {
        assert(sv.take(k + 1).drop_last() == sv.take(k as int));
        assert(sv.take(k + 1).last() == s@[k as int]@);
        let ghost before = strings_view(r@);
        let n = r.len();
        let repeated = n > 0 && equal(s[k].as_str(), r[n - 1].as_str());
        if !repeated {
            r.push(s[k].clone());
            assert(strings_view(r@) =~= before.push(s@[k as int]@));
            proof {
                let x = sv[k as int];
                if n > 0 {
                    let last = before.last();
                    assert(!path_less(x, last));
                    assert(path_less(last, x));
                    assert forall|i: int| 0 <= i < n - 1 implies path_less(#[trigger] before[i], x) by {
                        assert(path_less(before[i], last));
                    }
                }
                assert forall|p: int, q: int|
                    0 <= p < q < strings_view(r@).len() implies path_less(
                    #[trigger] strings_view(r@)[p],
                    #[trigger] strings_view(r@)[q],
                ) by {
                    if q == n {
                        assert(strings_view(r@)[q] == x);
                        assert(strings_view(r@)[p] == before[p]);
                        if p < n - 1 {
                            assert(path_less(before[p], x));
                        }
                    } else {
                        assert(strings_view(r@)[q] == before[q]);
                        assert(strings_view(r@)[p] == before[p]);
                    }
                }
                assert forall|m: int| k < m < sv.len() implies !path_less(#[trigger] sv[m], x) by {
                    assert(!path_less(sv[m], sv[k as int]));
                }
            }
        }
        k += 1;
    }
    assert(sv.take(s.len() as int) == sv);
    r
}

} // verus!
