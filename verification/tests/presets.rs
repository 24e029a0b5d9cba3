use tetrachrome::model::{Engine, Preset};
use tetrachrome::presets::{builtin, inverse_source, unique_name};

#[test]
fn builtin_roles_have_suffixes() {
    for preset in builtin() {
        for slot in &preset.slots {
            assert_eq!(slot.role.is_empty(), slot.suffixes.is_empty(), "{}", preset.name);
        }
    }
}

#[test]
fn unique_names() {
    let presets = builtin();
    assert_eq!(unique_name(&presets, "Custom"), "Custom 2");
    assert_eq!(unique_name(&presets, "Fresh"), "Fresh");
}

#[test]
fn unique_names_skip_taken_numbers() {
    let mut presets = builtin();
    let mut extra = Preset::default();
    extra.name = "custom 2".to_string();
    presets.push(extra);
    assert_eq!(unique_name(&presets, "CUSTOM"), "CUSTOM 3");
}

#[test]
fn builtin_presets_are_listed() {
    let presets = builtin();
    let names: Vec<&str> = presets.iter().map(|p| p.name.as_str()).collect();
    assert_eq!(
        names,
        ["Unity URP — Metallic", "Unity HDRP — Mask Map", "Unreal — ORM", "Unreal — ORM Packed", "Godot — ORM", "Custom"]
    );
    assert!(presets.iter().all(|p| p.builtin));
    assert_eq!(presets[2].engine, Engine::Unreal);
    assert!(!presets[2].alpha);
    assert_eq!(presets[2].slots[0].fill, 255);
    assert_eq!(presets[0].slots[3].fill, 0);
    assert_eq!(presets[2].slots[1].fill, 255);
}

#[test]
fn empty_channels_are_filled_black_or_white() {
    assert!(builtin().iter().all(|p| p.slots.iter().all(|s| s.fill == 0 || s.fill == 255)));
}

#[test]
fn inverse_maps() {
    let r = inverse_source("  Smoothness ").unwrap();
    assert_eq!(r, vec!["_Roughness", "_Rough", "_RGH"]);
    let s = inverse_source("roughness").unwrap();
    assert_eq!(s, vec!["_Smoothness", "_Smooth", "_Glossiness", "_Gloss"]);
    assert_eq!(inverse_source("GLOSSINESS").unwrap().len(), 3);
    assert_eq!(inverse_source("Metallic"), None);
}

#[test]
fn same_config_ignores_builtin_flag() {
    let a = builtin().remove(1);
    let mut b = a.clone();
    b.builtin = false;
    assert!(a.same_config(&b));
    b.slots[2].invert = true;
    assert!(!a.same_config(&b));
    assert_eq!(a.channels().len(), 4);
    assert_eq!(builtin()[2].channels().len(), 3);
}
