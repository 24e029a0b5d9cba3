use tetrachrome::model::{Channel, Preset};
use tetrachrome::naming::{NameParts, base_name, match_patterns, match_suffix, render};
use tetrachrome::presets::builtin;

fn hdrp() -> Preset {
    builtin().into_iter().find(|p| p.label == "_MaskMap").unwrap()
}

#[test]
fn matches_by_suffix() {
    let p = hdrp();
    let m = match_suffix("Rock_01_Metallic", &p).unwrap();
    assert_eq!((m.channel, m.base.as_str()), (Channel::R, "Rock_01"));
    let m = match_suffix("rock_ao_2K", &p).unwrap();
    assert_eq!((m.channel, m.base.as_str()), (Channel::G, "rock_2K"));
    let m = match_suffix("Rock_AmbientOcclusion", &p).unwrap();
    assert_eq!(m.channel, Channel::G);
    assert_eq!(match_suffix("Rock_Albedo", &p), None);
    // `_Metal` must not be found inside `_Metallic_Old` as a word.
    let m = match_suffix("Rock_Metallic_Old", &p).unwrap();
    assert_eq!(m.base, "Rock_Old");
}

#[test]
fn word_boundary() {
    let mut p = hdrp();
    p.slots[0].suffixes = vec!["*_M*".into()];
    assert_eq!(match_suffix("Rock_Mask", &p).map(|m| m.channel), None);
    assert_eq!(match_suffix("Rock_M", &p).map(|m| m.channel), Some(Channel::R));
}

#[test]
fn channels_without_alpha_are_skipped() {
    let orm = builtin().into_iter().find(|p| p.name == "Godot — ORM").unwrap();
    assert_eq!(match_suffix("Rock_Roughness", &orm).map(|m| m.channel), Some(Channel::G));
}

#[test]
fn renders_template() {
    let parts = NameParts { basename: "Rock", preset: "Unity HDRP — Mask Map", label: "_MaskMap" };
    let today = chrono::Local::now().format("%Y-%m-%d").to_string();
    assert_eq!(render("{basename}{label}", &parts, &today), "Rock_MaskMap");
    assert_eq!(render("{preset}/{basename}", &parts, &today), "Unity_HDRP_Mask_Map_Rock");
    assert!(render("{basename}_{date}", &parts, &today).starts_with("Rock_20"));
    assert_eq!(render("   ", &parts, &today), "packed");
}

#[test]
fn render_with_fixed_date() {
    let parts = NameParts { basename: "Rock", preset: "Custom", label: "_Packed" };
    assert_eq!(render("{basename}_{date}", &parts, "2024-05-01"), "Rock_2024-05-01");
    // forbidden characters become `_`, trailing dots and outer spaces go
    assert_eq!(render(" a<b>c?. ", &parts, "x"), "a_b_c_");
    assert_eq!(render("...", &parts, "x"), "packed");
    // a basename that holds a token is filled in turn
    let odd = NameParts { basename: "{label}", preset: "P", label: "L" };
    assert_eq!(render("{basename}", &odd, "x"), "L");
}

#[test]
fn longest_pattern_wins() {
    let pats = vec!["_AO".to_string(), "_AmbientOcclusion".to_string()];
    assert_eq!(match_patterns("Rock_AmbientOcclusion", &pats), Some((17, "Rock".to_string())));
    assert_eq!(match_patterns("Rock_ao", &pats), Some((3, "Rock".to_string())));
    assert_eq!(match_patterns("Rock", &pats), None);
    // empty and star-only patterns are ignored
    let pats = vec!["  ".to_string(), "**".to_string()];
    assert_eq!(match_patterns("Rock_", &pats), None);
}

#[test]
fn tidy_separators() {
    let pats = vec!["_AO".to_string()];
    assert_eq!(match_patterns("Rock__AO__2K", &pats), Some((3, "Rock_2K".to_string())));
    assert_eq!(match_patterns("_AO_", &pats), Some((3, "".to_string())));
    let p = hdrp();
    // nothing left of the name: the stem stays the base
    assert_eq!(base_name("_AO", &p), "_AO");
    assert_eq!(base_name("Wood_Metal", &p), "Wood");
    assert_eq!(base_name("Wood_Albedo", &p), "Wood_Albedo");
}
