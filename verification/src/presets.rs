//! Built-in presets, and names for the user's own.

use vstd::prelude::*;
use vstd::set_lib::{lemma_int_range, lemma_len_subset, lemma_map_size, set_int_range};

use crate::model::{Engine, Preset, PresetView, SlotConfig, SlotView, SourceChannel, strs_view};
use crate::text::{
    CharSet, ascii_fold, chars_eq_ignore_ascii_case, chars_of, decimal, decimal_chars,
    eq_ignore_ascii_case, is_digit, lemma_decimal_digits, lemma_decimal_injective, lowercase,
    string_of, to_lowercase, trim, trim_chars, same_chars,
};

verus! {

pub open spec fn metallic_suffixes() -> Seq<Seq<char>> {
    seq!["_Metallic"@, "_Metalness"@, "_Metal"@, "_MTL"@]
}

pub open spec fn smoothness_suffixes() -> Seq<Seq<char>> {
    seq!["_Smoothness"@, "_Smooth"@, "_Glossiness"@, "_Gloss"@]
}

pub open spec fn roughness_suffixes() -> Seq<Seq<char>> {
    seq!["_Roughness"@, "_Rough"@, "_RGH"@]
}

pub open spec fn occlusion_suffixes() -> Seq<Seq<char>> {
    seq!["_AmbientOcclusion"@, "_Occlusion"@, "_AO"@, "_Occ"@]
}

pub open spec fn detail_suffixes() -> Seq<Seq<char>> {
    seq!["_DetailMask"@, "_Detail"@]
}

fn metallic() -> (r: Vec<&'static str>)
    ensures
        strs_view(r@) == metallic_suffixes(),
{
    let r = vec!["_Metallic", "_Metalness", "_Metal", "_MTL"];
    assert(strs_view(r@) =~= metallic_suffixes());
    r
}

fn smoothness() -> (r: Vec<&'static str>)
    ensures
        strs_view(r@) == smoothness_suffixes(),
{
    let r = vec!["_Smoothness", "_Smooth", "_Glossiness", "_Gloss"];
    assert(strs_view(r@) =~= smoothness_suffixes());
    r
}

fn roughness() -> (r: Vec<&'static str>)
    ensures
        strs_view(r@) == roughness_suffixes(),
{
    let r = vec!["_Roughness", "_Rough", "_RGH"];
    assert(strs_view(r@) =~= roughness_suffixes());
    r
}

fn occlusion() -> (r: Vec<&'static str>)
    ensures
        strs_view(r@) == occlusion_suffixes(),
{
    let r = vec!["_AmbientOcclusion", "_Occlusion", "_AO", "_Occ"];
    assert(strs_view(r@) =~= occlusion_suffixes());
    r
}

fn detail() -> (r: Vec<&'static str>)
    ensures
        strs_view(r@) == detail_suffixes(),
{
    let r = vec!["_DetailMask", "_Detail"];
    assert(strs_view(r@) =~= detail_suffixes());
    r
}

/// Owned copies of a list of suffixes.
fn owned(v: Vec<&'static str>) -> (r: Vec<String>)
    ensures
        r@.map_values(|s: String| s@) == strs_view(v@),
{
    crate::model::owned_strings(v.as_slice())
}

/// The role key of a role name: trimmed and lowercased.
pub open spec fn role_key(role: Seq<char>) -> Seq<char> {
    lowercase(trim(role, CharSet::White))
}

/// The role key of a role name: trimmed and lowercased.
pub fn role_key_of(role: &str) -> (r: String)
    ensures
        r@ == role_key(role@),
{
    let v = chars_of(role);
    let t = trim_chars(&v, CharSet::White, true, true);
    to_lowercase(string_of(t.as_slice()).as_str())
}

/// The suffixes of the map that a role is the inverse of, by its role key:
/// smoothness (or glossiness) is inverted roughness, and roughness is
/// inverted smoothness.
pub open spec fn inverse_of_key(key: Seq<char>) -> Option<Seq<Seq<char>>> {
    if key == "smoothness"@ || key == "glossiness"@ {
        Some(roughness_suffixes())
    } else if key == "roughness"@ {
        Some(smoothness_suffixes())
    } else {
        None
    }
}

/// The map that a role is obtained from by inversion: smoothness is inverted
/// roughness and the other way round. Needed when moving between Unity and
/// Unreal or Godot.
pub fn inverse_source(role: &str) -> (r: Option<Vec<String>>)
    ensures
        match r {
            Some(v) => inverse_of_key(role_key(role@)) == Some(v@.map_values(|s: String| s@)),
            None => inverse_of_key(role_key(role@)) is None,
        },
{
    let key = role_key_of(role);
    let k = chars_of(key.as_str());
    if same_chars(&k, &chars_of("smoothness")) || same_chars(&k, &chars_of("glossiness")) {
        Some(owned(roughness()))
    } else if same_chars(&k, &chars_of("roughness")) {
        Some(owned(smoothness()))
    } else {
        None
    }
}

pub open spec fn role_slot(role: Seq<char>, suffixes: Seq<Seq<char>>, fill: u8) -> SlotView {
    SlotView {
        role: role,
        source: SourceChannel::Lum,
        invert: false,
        fill: fill,
        srgb: false,
        suffixes: suffixes,
    }
}

pub open spec fn empty_slot(fill: u8) -> SlotView {
    role_slot(Seq::empty(), Seq::empty(), fill)
}

fn slot(role: &str, suffixes: &[&str], fill: u8) -> (r: SlotConfig)
    ensures
        r@ == role_slot(role@, strs_view(suffixes@), fill),
{
    let mut s = SlotConfig::role(role, suffixes);
    s.fill = fill;
    s
}

pub open spec fn builtin_preset(
    name: Seq<char>,
    engine: Engine,
    label: Seq<char>,
    alpha: bool,
    slots: Seq<SlotView>,
) -> PresetView {
    PresetView { name, engine, label, alpha, slots, builtin: true }
}

/// The presets that come with the program.
pub open spec fn builtin_presets() -> Seq<PresetView> {
    seq![
        builtin_preset(
            "Unity URP — Metallic"@,
            Engine::Unity,
            "_MetallicSmoothness"@,
            true,
            seq![
                role_slot("Metallic"@, metallic_suffixes(), 0),
                empty_slot(0),
                empty_slot(0),
                role_slot("Smoothness"@, smoothness_suffixes(), 0),
            ],
        ),
        builtin_preset(
            "Unity HDRP — Mask Map"@,
            Engine::Unity,
            "_MaskMap"@,
            true,
            seq![
                role_slot("Metallic"@, metallic_suffixes(), 0),
                role_slot("Ambient Occlusion"@, occlusion_suffixes(), 255),
                role_slot("Detail Mask"@, detail_suffixes(), 0),
                role_slot("Smoothness"@, smoothness_suffixes(), 0),
            ],
        ),
        builtin_preset(
            "Unreal — ORM"@,
            Engine::Unreal,
            "_ORM"@,
            false,
            seq![
                empty_slot(255),
                role_slot("Roughness"@, roughness_suffixes(), 255),
                role_slot("Metallic"@, metallic_suffixes(), 0),
                empty_slot(255),
            ],
        ),
        builtin_preset(
            "Unreal — ORM Packed"@,
            Engine::Unreal,
            "_ORM"@,
            true,
            seq![
                role_slot("Ambient Occlusion"@, occlusion_suffixes(), 255),
                role_slot("Roughness"@, roughness_suffixes(), 255),
                role_slot("Metallic"@, metallic_suffixes(), 0),
                empty_slot(0),
            ],
        ),
        builtin_preset(
            "Godot — ORM"@,
            Engine::Godot,
            "_ORM"@,
            false,
            seq![
                role_slot("Ambient Occlusion"@, occlusion_suffixes(), 255),
                role_slot("Roughness"@, roughness_suffixes(), 255),
                role_slot("Metallic"@, metallic_suffixes(), 0),
                empty_slot(255),
            ],
        ),
        builtin_preset(
            "Custom"@,
            Engine::Other,
            "_Packed"@,
            true,
            seq![empty_slot(0), empty_slot(0), empty_slot(0), empty_slot(255)],
        ),
    ]
}

pub open spec fn presets_view(v: Seq<Preset>) -> Seq<PresetView> {
    v.map_values(|p: Preset| p@)
}

fn preset(name: &str, engine: Engine, label: &str, alpha: bool, slots: [SlotConfig; 4]) -> (r:
    Preset)
    ensures
        r@ == builtin_preset(
            name@,
            engine,
            label@,
            alpha,
            slots@.map_values(|s: SlotConfig| s@),
        ),
{
    Preset { name: name.to_owned(), engine, label: label.to_owned(), alpha, slots, builtin: true }
}

/// The built-in presets.
pub fn builtin() -> (r: Vec<Preset>)
    ensures
        presets_view(r@) == builtin_presets(),
{
    let urp_slots = [
        slot("Metallic", metallic().as_slice(), 0),
        SlotConfig::empty(0),
        SlotConfig::empty(0),
        slot("Smoothness", smoothness().as_slice(), 0),
    ];
    let urp = preset("Unity URP — Metallic", Engine::Unity, "_MetallicSmoothness", true, urp_slots);
    let hdrp_slots = [
        slot("Metallic", metallic().as_slice(), 0),
        slot("Ambient Occlusion", occlusion().as_slice(), 255),
        slot("Detail Mask", detail().as_slice(), 0),
        slot("Smoothness", smoothness().as_slice(), 0),
    ];
    let hdrp = preset("Unity HDRP — Mask Map", Engine::Unity, "_MaskMap", true, hdrp_slots);
    let orm_slots = [
        SlotConfig::empty(255),
        slot("Roughness", roughness().as_slice(), 255),
        slot("Metallic", metallic().as_slice(), 0),
        SlotConfig::empty(255),
    ];
    let orm = preset("Unreal — ORM", Engine::Unreal, "_ORM", false, orm_slots);
    let packed_slots = [
        slot("Ambient Occlusion", occlusion().as_slice(), 255),
        slot("Roughness", roughness().as_slice(), 255),
        slot("Metallic", metallic().as_slice(), 0),
        SlotConfig::empty(0),
    ];
    let packed = preset("Unreal — ORM Packed", Engine::Unreal, "_ORM", true, packed_slots);
    let godot_slots = [
        slot("Ambient Occlusion", occlusion().as_slice(), 255),
        slot("Roughness", roughness().as_slice(), 255),
        slot("Metallic", metallic().as_slice(), 0),
        SlotConfig::empty(255),
    ];
    let godot = preset("Godot — ORM", Engine::Godot, "_ORM", false, godot_slots);
    let custom_slots = [
        SlotConfig::empty(0),
        SlotConfig::empty(0),
        SlotConfig::empty(0),
        SlotConfig::empty(255),
    ];
    let custom = preset("Custom", Engine::Other, "_Packed", true, custom_slots);
    proof {
        assert(urp@.slots =~= builtin_presets()[0].slots);
        assert(hdrp@.slots =~= builtin_presets()[1].slots);
        assert(orm@.slots =~= builtin_presets()[2].slots);
        assert(packed@.slots =~= builtin_presets()[3].slots);
        assert(godot@.slots =~= builtin_presets()[4].slots);
        assert(custom@.slots =~= builtin_presets()[5].slots);
    }
    let r = vec![urp, hdrp, orm, packed, godot, custom];
    assert(presets_view(r@) =~= builtin_presets());
    r
}

/// Every built-in preset is marked built in, and each of its channels has a
/// role exactly when it has suffixes to recognise its maps by.
pub proof fn law_builtin_roles_have_suffixes()
    ensures
        forall|i: int|
            0 <= i < builtin_presets().len() ==> {
                let p = #[trigger] builtin_presets()[i];
                &&& p.builtin
                &&& p.slots.len() == 4
                &&& forall|k: int|
                    0 <= k < 4 ==> (#[trigger] p.slots[k].role.len() == 0
                        <==> p.slots[k].suffixes.len() == 0)
            },
{
    reveal_strlit("Metallic");
    reveal_strlit("Smoothness");
    reveal_strlit("Ambient Occlusion");
    reveal_strlit("Detail Mask");
    reveal_strlit("Roughness");
}

/// A channel of a built-in preset without an image is filled with the
/// constant 0 or 255; an empty smoothness or roughness channel reads as
/// fully rough.
pub proof fn law_builtin_fills()
    ensures
        forall|i: int, k: int|
            0 <= i < builtin_presets().len() && 0 <= k < 4 ==> {
                let f = (#[trigger] builtin_presets()[i].slots[k]).fill;
                f == 0 || f == 255
            },
{
}

// ------------------------------------------------------------ unique names

/// Some preset in the list has this name, ignoring ASCII case.
pub open spec fn name_taken(presets: Seq<PresetView>, name: Seq<char>) -> bool {
    exists|i: int| 0 <= i < presets.len() && eq_ignore_ascii_case(#[trigger] presets[i].name, name)
}

/// `Name 2`, `Name 3`, …
pub open spec fn numbered(wanted: Seq<char>, n: nat) -> Seq<char> {
    wanted + " "@ + decimal(n)
}

/// The name `unique_name` picks: the wanted one if it is free, else the first
/// numbered one from 2 up that is free.
pub open spec fn is_unique_name(presets: Seq<PresetView>, wanted: Seq<char>, r: Seq<char>) -> bool {
    if !name_taken(presets, wanted) {
        r == wanted
    } else {
        exists|n: nat|
            n >= 2 && r == numbered(wanted, n) && !name_taken(presets, numbered(wanted, n))
                && forall|m: nat| 2 <= m < n ==> name_taken(presets, #[trigger] numbered(wanted, m))
    }
}

proof fn lemma_numbered_distinct(wanted: Seq<char>, a: nat, b: nat)
    requires
        eq_ignore_ascii_case(numbered(wanted, a), numbered(wanted, b)),
    ensures
        a == b,
{
    reveal_strlit(" ");
    lemma_decimal_digits(a);
    lemma_decimal_digits(b);
    let da = decimal(a);
    let db = decimal(b);
    let off = wanted.len() + 1;
    assert(da.len() == db.len());
    assert forall|k: int| 0 <= k < da.len() implies da[k] == db[k] by {
        assert(numbered(wanted, a)[off + k] == da[k]);
        assert(numbered(wanted, b)[off + k] == db[k]);
        assert(is_digit(da[k]) && is_digit(db[k]));
        assert(ascii_fold(da[k]) == da[k] as u32);
        assert(ascii_fold(db[k]) == db[k] as u32);
    }
    assert(da =~= db);
    lemma_decimal_injective(a, b);
}

/// When the numbered names 2 to `n - 1` are all taken, there are at least
/// `n - 2` presets: each name is taken by a different one.
proof fn lemma_taken_bound(presets: Seq<PresetView>, wanted: Seq<char>, n: nat)
    requires
        n >= 2,
        forall|m: nat| 2 <= m < n ==> name_taken(presets, #[trigger] numbered(wanted, m)),
    ensures
        n - 2 <= presets.len(),
{
    let xs = set_int_range(2, n as int);
    let owner = |m: int|
        choose|i: int|
            0 <= i < presets.len() && eq_ignore_ascii_case(
                #[trigger] presets[i].name,
                numbered(wanted, m as nat),
            );
    lemma_int_range(2, n as int);
    lemma_int_range(0, presets.len() as int);
    assert forall|m: int| xs.contains(m) implies 0 <= #[trigger] owner(m) < presets.len()
        && eq_ignore_ascii_case(presets[owner(m)].name, numbered(wanted, m as nat)) by {
        assert(name_taken(presets, numbered(wanted, m as nat)));
    }
    assert forall|m1: int, m2: int|
        xs.contains(m1) && xs.contains(m2) && #[trigger] owner(m1) == #[trigger] owner(
            m2,
        ) implies m1 == m2 by {
        let i = owner(m1);
        let name = presets[i].name;
        let c1 = numbered(wanted, m1 as nat);
        let c2 = numbered(wanted, m2 as nat);
        assert(eq_ignore_ascii_case(c1, c2)) by {
            assert forall|k: int| 0 <= k < c1.len() implies ascii_fold(#[trigger] c1[k])
                == ascii_fold(c2[k]) by {
                assert(ascii_fold(name[k]) == ascii_fold(c1[k]));
                assert(ascii_fold(name[k]) == ascii_fold(c2[k]));
            }
        }
        lemma_numbered_distinct(wanted, m1 as nat, m2 as nat);
    }
    let ys = xs.map(owner);
    assert(vstd::relations::injective_on(owner, xs));
    lemma_map_size(xs, ys, owner);
    assert(ys.subset_of(set_int_range(0, presets.len() as int)));
    lemma_len_subset(ys, set_int_range(0, presets.len() as int));
}

fn taken(presets: &[Preset], name: &Vec<char>) -> (r: bool)
    ensures
        r == name_taken(presets_view(presets@), name@),
{
    let ghost pv = presets_view(presets@);
    let mut i: usize = 0;
    while i < presets.len()
        invariant
            i <= presets.len(),
            pv == presets_view(presets@),
            forall|k: int| 0 <= k < i ==> !eq_ignore_ascii_case(#[trigger] pv[k].name, name@),
        decreases presets.len() - i,
    {
        let n = chars_of(presets[i].name.as_str());
        if chars_eq_ignore_ascii_case(&n, name) {
            assert(pv[i as int].name == n@);
            return true;
        }
        i += 1;
    }
    false
}

/// A name that is not yet in the list: "Name", "Name 2", "Name 3"… Names
/// are compared without regard to ASCII case.
pub fn unique_name(presets: &[Preset], wanted: &str) -> (r: String)
    ensures
        is_unique_name(presets_view(presets@), wanted@, r@),
{
    let ghost pv = presets_view(presets@);
    let w = chars_of(wanted);
    if !taken(presets, &w) {
        return wanted.to_owned();
    }
    let mut n: u128 = 2;
    loop
        invariant
            2 <= n,
            n <= presets.len() + 2,
            w@ == wanted@,
            pv == presets_view(presets@),
            name_taken(pv, wanted@),
            forall|m: nat| 2 <= m < n ==> name_taken(pv, #[trigger] numbered(wanted@, m)),
        decreases presets.len() + 2 - n,
    {
        let mut candidate = chars_of(wanted);
        candidate.push(' ');
        let digits = decimal_chars(n);
        crate::text::append(&mut candidate, &digits);
        proof {
            reveal_strlit(" ");
            assert(candidate@ =~= numbered(wanted@, n as nat));
        }
        if !taken(presets, &candidate) {
            return string_of(candidate.as_slice());
        }
        proof {
            lemma_taken_bound(pv, wanted@, (n + 1) as nat);
        }
        n = n + 1;
    }
}


// ------------------------------------------------------------ suffix lists

pub open spec fn is_list_sep(c: char) -> bool {
    c == ',' || c == ';'
}

/// An item closed: kept trimmed if anything is left of it.
pub open spec fn close_item(items: Seq<Seq<char>>, cur: Seq<char>) -> Seq<Seq<char>> {
    if trim(cur, CharSet::White).len() > 0 {
        items.push(trim(cur, CharSet::White))
    } else {
        items
    }
}

/// The text read up to its end: the items closed so far and the one open.
pub open spec fn list_scan(text: Seq<char>) -> (Seq<Seq<char>>, Seq<char>)
    decreases text.len(),
{
    if text.len() == 0 {
        (Seq::empty(), Seq::empty())
    } else {
        let (items, cur) = list_scan(text.drop_last());
        if is_list_sep(text.last()) {
            (close_item(items, cur), Seq::empty())
        } else {
            (items, cur.push(text.last()))
        }
    }
}

/// The items of a list typed as `_Metallic, _Metal; _MTL`: split at `,` and
/// `;`, trimmed, empty ones dropped.
pub open spec fn list_items(text: Seq<char>) -> Seq<Seq<char>> {
    close_item(list_scan(text).0, list_scan(text).1)
}

fn close_item_exec(items: &mut Vec<String>, cur: &Vec<char>)
    ensures
        final(items)@.map_values(|s: String| s@) == close_item(
            old(items)@.map_values(|s: String| s@),
            cur@,
        ),
{
    let t = trim_chars(cur, CharSet::White, true, true);
    if t.len() > 0 {
        let ghost before = items@.map_values(|s: String| s@);
        items.push(string_of(t.as_slice()));
        assert(items@.map_values(|s: String| s@) =~= before.push(t@));
    }
}

/// Read a list of suffixes typed by hand.
pub fn parse_list(text: &str) -> (r: Vec<String>)
    ensures
        r@.map_values(|s: String| s@) == list_items(text@),
{
    let t = chars_of(text);
    let mut items: Vec<String> = Vec::new();
    let mut cur: Vec<char> = Vec::new();
    let mut i: usize = 0;
    assert(items@.map_values(|s: String| s@) =~= Seq::<Seq<char>>::empty());
    while i < t.len()
        invariant
            i <= t.len(),
            t@ == text@,
            (items@.map_values(|s: String| s@), cur@) == list_scan(t@.take(i as int)),
        decreases t.len() - i,
    {
        assert(t@.take(i + 1).drop_last() == t@.take(i as int));
        let c = t[i];
        if c == ',' || c == ';' {
            close_item_exec(&mut items, &cur);
            cur = Vec::new();
        } else {
            cur.push(c);
        }
        i += 1;
    }
    assert(t@.take(t.len() as int) == t@);
    close_item_exec(&mut items, &cur);
    items
}

} // verus!
