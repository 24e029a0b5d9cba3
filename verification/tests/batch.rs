use tetrachrome::batch::{filled, plan};
use tetrachrome::presets::builtin;

#[test]
fn groups_by_base_name() {
    let preset = builtin().into_iter().find(|p| p.label == "_MaskMap").unwrap();
    let files: Vec<String> = [
        "a/Rock_Metallic.png",
        "a/Rock_AO.png",
        "a/Rock_Smoothness.png",
        "a/rock_ao.tga",
        "a/Wood_Metal.png",
        "a/Wood_Albedo.png",
    ]
    .iter()
    .map(|s| s.to_string())
    .collect();
    let plan = plan(&files, &preset);
    assert_eq!(plan.groups.len(), 2);
    assert_eq!(plan.groups[0].base, "Rock");
    assert!(plan.groups[0].files[0].is_some());
    assert!(plan.groups[0].files[1].is_some());
    assert!(plan.groups[0].files[2].is_none());
    assert!(plan.groups[0].files[3].is_some());
    assert_eq!(plan.groups[1].base, "Wood");
    assert_eq!(plan.unmatched, vec!["a/Wood_Albedo.png".to_string()]);
    assert_eq!(plan.conflicts.len(), 1);
}

#[test]
fn conflicts_and_order() {
    let preset = builtin().into_iter().find(|p| p.label == "_MaskMap").unwrap();
    let files: Vec<String> = ["x/zeta_AO.png", "x/Alpha_AO.png", "x/ZETA_Occlusion.png", "x/beta_Metal.png"]
        .iter()
        .map(|s| s.to_string())
        .collect();
    let plan = plan(&files, &preset);
    let bases: Vec<&str> = plan.groups.iter().map(|g| g.base.as_str()).collect();
    assert_eq!(bases, ["Alpha", "beta", "zeta"]);
    assert_eq!(plan.conflicts, vec![("x/ZETA_Occlusion.png".to_string(), "ZETA G".to_string())]);
    assert_eq!(filled(&plan.groups[2], &preset), 1);
    assert!(plan.unmatched.is_empty());
}
