use tetrachrome::model::{Channel, OutputFormat, SizePolicy};
use tetrachrome::session::{extra, Session, SourceInfo, Toast, LIBRARY_LIMIT};
use tetrachrome::state::{LoadTarget, OutputSettings, ToastKind};

fn output() -> OutputSettings {
    OutputSettings {
        template: "{basename}{label}".to_string(),
        format: OutputFormat::Png,
        sixteen: false,
        folder: None,
        policy: SizePolicy::Largest,
        custom: (1024, 1024),
        overwrite: false,
    }
}

fn session() -> Session {
    Session::new(Vec::new(), output())
}

fn image(id: u64, path: &str, size: u32) -> SourceInfo {
    let name = path.rsplit('/').next().unwrap().to_string();
    SourceInfo { id, path: path.to_string(), name, width: size, height: size }
}

fn slot_id(s: &Session, c: Channel) -> Option<u64> {
    s.slots[c.index()].as_ref().map(|x| x.id)
}

#[test]
fn new_session_selects_mask_map() {
    let s = session();
    assert_eq!(s.selected, 1);
    assert_eq!(s.work.label, "_MaskMap");
    assert_eq!(s.current().name, "Unity HDRP — Mask Map");
    assert!(!s.modified());
    assert!(!s.alpha_visible());
    assert!(s.library.is_empty());
    assert!(!s.can_undo() && !s.can_redo());
}

#[test]
fn images_go_by_suffix_then_to_the_first_empty_channel() {
    let mut s = session();
    s.place(&image(1, "a/Rock_AO.png", 64), LoadTarget::Auto { single: false });
    assert_eq!(slot_id(&s, Channel::G), Some(1));
    // No suffix, several files: only the library.
    s.place(&image(2, "a/Rock_Albedo.png", 64), LoadTarget::Auto { single: false });
    assert_eq!(slot_id(&s, Channel::R), None);
    // No suffix, a single file: the first empty channel.
    s.place(&image(3, "a/Rock_Albedo.png", 64), LoadTarget::Auto { single: true });
    assert_eq!(slot_id(&s, Channel::R), Some(3));
    s.place(&image(4, "a/x.png", 64), LoadTarget::Slot(Channel::B));
    s.place(&image(5, "a/y.png", 64), LoadTarget::Slot(Channel::A));
    s.place(&image(6, "a/z.png", 64), LoadTarget::Auto { single: true });
    let last = s.notices.last().unwrap();
    assert_eq!(last.kind, ToastKind::Info);
    assert_eq!(last.text, "z.png added to the library — all channels are busy");
    s.clear_slot(Channel::B);
    assert_eq!(slot_id(&s, Channel::B), None);
    s.clear_all();
    assert!(s.slots.iter().all(|x| x.is_none()));
}

#[test]
fn alpha_slot_turns_alpha_on() {
    let mut s = session();
    let orm = s.presets.iter().position(|p| p.name == "Unreal — ORM").unwrap();
    s.apply_preset(orm);
    assert!(!s.work.alpha);
    s.place(&image(1, "a/mask.png", 32), LoadTarget::Slot(Channel::A));
    assert!(s.work.alpha);
    assert_eq!(slot_id(&s, Channel::A), Some(1));
}

#[test]
fn replace_puts_the_new_image_wherever_the_old_one_was() {
    let mut s = session();
    s.place(&image(7, "a/m.png", 32), LoadTarget::Slot(Channel::R));
    s.place(&image(7, "a/m.png", 32), LoadTarget::Slot(Channel::B));
    s.place(&image(8, "a/n.png", 32), LoadTarget::Slot(Channel::G));
    s.place(&image(9, "a/m.png", 32), LoadTarget::Replace(7));
    assert_eq!(slot_id(&s, Channel::R), Some(9));
    assert_eq!(slot_id(&s, Channel::G), Some(8));
    assert_eq!(slot_id(&s, Channel::B), Some(9));
}

#[test]
fn library_keeps_the_images_in_use() {
    let mut s = session();
    s.add_to_library(image(1, "a/used_AO.png", 8));
    s.place(&image(1, "a/used_AO.png", 8), LoadTarget::Slot(Channel::G));
    for i in 2..42u64 {
        s.add_to_library(image(i, &format!("a/img{i}.png"), 8));
    }
    assert_eq!(s.library.len(), LIBRARY_LIMIT);
    assert_eq!(s.library[0].id, 41);
    assert!(s.library.iter().any(|x| x.id == 1));
    // The same file again replaces the old entry and comes first.
    s.add_to_library(image(50, "a/img40.png", 8));
    assert_eq!(s.library[0].id, 50);
    assert!(!s.library.iter().any(|x| x.id == 40));
}

#[test]
fn sizes_and_output_name() {
    let mut s = session();
    assert_eq!(s.target_size(), None);
    assert_eq!(s.can_export(false), Err("Assign at least one image, or set a custom size"));
    s.place(&image(1, "tex/Rock_Metallic.png", 512), LoadTarget::Auto { single: false });
    s.place(&image(2, "tex/Rock_AO.png", 1024), LoadTarget::Auto { single: false });
    assert_eq!(s.source_sizes(), vec![(512, 512), (1024, 1024)]);
    assert!(s.sizes_differ());
    assert_eq!(s.target_size(), Some((1024, 1024)));
    assert_eq!(s.basename(), "Rock");
    assert_eq!(s.output_name("2024-05-01"), "Rock_MaskMap.png");
    assert_eq!(s.output_dir(), Some("tex".to_string()));
    assert_eq!(s.can_export(false), Ok(()));
    assert_eq!(s.can_export(true), Err("Export in progress"));
}

#[test]
fn saving_deleting_and_moving_presets() {
    let mut s = session();
    let builtin = s.presets.len();
    s.save_preset_as_new();
    assert_eq!(s.presets.len(), builtin + 1);
    assert_eq!(s.selected, builtin);
    assert!(!s.presets[builtin].builtin);
    assert_eq!(s.notices.last().unwrap().kind, ToastKind::Success);
    s.duplicate_preset();
    assert_eq!(s.presets.len(), builtin + 2);
    assert_ne!(s.presets[builtin].name, s.presets[builtin + 1].name);
    // A built-in preset is never deleted.
    s.delete_preset(0);
    assert_eq!(s.presets.len(), builtin + 2);
    // Moving up and then down again gives the list back.
    let names: Vec<String> = s.presets.iter().map(|p| p.name.clone()).collect();
    s.move_preset(builtin + 1, true);
    assert_eq!(s.presets[builtin].name, names[builtin + 1]);
    s.move_preset(builtin, false);
    let again: Vec<String> = s.presets.iter().map(|p| p.name.clone()).collect();
    assert_eq!(again, names);
    s.delete_preset(builtin + 1);
    assert_eq!(s.presets.len(), builtin + 1);
    assert!(s.persist);
}

#[test]
fn undo_then_redo() {
    let mut s = session();
    s.settle(false);
    assert!(!s.can_undo());
    s.place(&image(1, "a/Rock_AO.png", 16), LoadTarget::Auto { single: false });
    s.settle(false);
    assert!(s.can_undo());
    s.undo();
    assert_eq!(slot_id(&s, Channel::G), None);
    assert!(s.can_redo());
    s.redo();
    assert_eq!(slot_id(&s, Channel::G), Some(1));
    assert!(!s.can_redo());
    // Busy: nothing is recorded.
    s.clear_all();
    s.settle(true);
    s.undo();
    assert_eq!(slot_id(&s, Channel::G), None);
}

#[test]
fn notices_with_a_button_stay_longer() {
    let info = Toast { kind: ToastKind::Info, text: "x".to_string(), reveal: None };
    let shown = Toast { kind: ToastKind::Success, text: "x".to_string(), reveal: Some("out".to_string()) };
    let error = Toast { kind: ToastKind::Error, text: "x".to_string(), reveal: None };
    assert_eq!(extra(&info), 0);
    assert_eq!(extra(&shown), 4);
    assert_eq!(extra(&error), 4);
}

#[test]
fn undo_remembers_a_limited_number_of_steps() {
    let mut s = session();
    for i in 0..70u8 {
        s.work.slots[0].fill = i + 1;
        s.settle(false);
    }
    let mut steps = 0;
    while s.can_undo() {
        s.undo();
        steps += 1;
    }
    assert_eq!(steps, tetrachrome::session::UNDO_LIMIT);
    assert_eq!(s.work.slots[0].fill, 6);
}

#[test]
fn a_session_starts_from_the_presets_file() {
    let s = Session::start(Ok(Vec::new()));
    assert_eq!(s.presets.len(), 6);
    assert_eq!(s.selected, 1);
    assert_eq!(s.output.template, "{basename}{label}");
    assert_eq!(s.output.format, OutputFormat::Png);
    assert_eq!(s.output.policy, SizePolicy::Largest);
    assert_eq!(s.output.custom, (2048, 2048));
    assert!(s.notices.is_empty());
    let s = Session::start(Err("Cannot parse presets.json".to_string()));
    assert_eq!(s.presets.len(), 6);
    assert_eq!(s.notices.len(), 1);
    assert_eq!(s.notices[0].kind, ToastKind::Error);
    assert_eq!(s.notices[0].text, "Cannot parse presets.json");
}

#[test]
fn saving_a_builtin_preset_adds_the_working_copy() {
    let mut s = session();
    s.work.alpha = false;
    s.save_preset();
    let last = s.presets.last().unwrap();
    assert_eq!(s.selected, s.presets.len() - 1);
    assert!(!last.builtin);
    assert!(!last.alpha);
    assert_eq!(last.name, "Unity HDRP — Mask Map copy");
    assert_eq!(s.work.name, last.name);
    assert!(!s.modified());
}

#[test]
fn deleting_another_preset_keeps_the_edits() {
    let mut s = session();
    s.new_preset();
    let user = s.selected;
    s.new_preset();
    s.work.label = "_Edited".to_string();
    s.delete_preset(user);
    assert_eq!(s.work.label, "_Edited");
    assert_eq!(s.selected, user);
    assert_eq!(s.notices.last().unwrap().kind, ToastKind::Info);
}

#[test]
fn answering_the_switch_question() {
    let mut s = session();
    s.work.label = "_Edited".to_string();
    s.select_preset(0);
    assert!(matches!(s.dialog, Some(tetrachrome::state::Dialog::SwitchPreset(0))));
    s.answer_switch(false);
    assert!(s.dialog.is_none());
    assert_eq!(s.selected, 0);
    assert_eq!(s.work.label, "_MetallicSmoothness");
    let mut s = session();
    s.work.label = "_Edited".to_string();
    s.select_preset(2);
    s.answer_switch(true);
    assert_eq!(s.selected, 2);
    assert_eq!(s.presets.last().unwrap().label, "_Edited");
}

#[test]
fn custom_size_starts_from_the_current_one() {
    let mut s = session();
    s.place(&image(1, "a/Rock_AO.png", 300), LoadTarget::Slot(Channel::G));
    s.set_custom_size(true);
    assert_eq!(s.output.policy, SizePolicy::Custom);
    assert_eq!(s.output.custom, (300, 300));
    s.set_custom_size(false);
    assert_eq!(s.output.policy, SizePolicy::Largest);
}
