use tetrachrome::model::{Channel, OutputFormat, SizePolicy};
use tetrachrome::session::{Session, SourceInfo};
use tetrachrome::state::{Dialog, LoadTarget, OutputSettings, ToastKind};

fn session() -> Session {
    let output = OutputSettings {
        template: "{basename}{label}".to_string(),
        format: OutputFormat::Png,
        sixteen: false,
        folder: None,
        policy: SizePolicy::Largest,
        custom: (1024, 1024),
        overwrite: false,
    };
    Session::new(Vec::new(), output)
}

#[test]
fn export_needs_an_image() {
    let mut s = session();
    assert!(s.export_target(false, "2024-05-01").is_none());
    let last = s.notices.last().unwrap();
    assert_eq!(last.kind, ToastKind::Warning);
    assert_eq!(last.text, "Assign at least one image, or set a custom size");
}

#[test]
fn export_writes_beside_the_sources() {
    let mut s = session();
    let src = SourceInfo { id: 1, path: "tex/Rock_AO.png".to_string(), name: "Rock_AO.png".to_string(), width: 256, height: 128 };
    s.place(&src, LoadTarget::Slot(Channel::G));
    let (path, name, size) = s.export_target(false, "2024-05-01").unwrap();
    assert_eq!(path, "tex/Rock_MaskMap.png");
    assert_eq!(name, "Rock_MaskMap.png");
    assert_eq!(size, (256, 128));
    assert!(s.notices.is_empty());
    assert!(s.export_target(true, "2024-05-01").is_none());
    assert_eq!(s.notices.last().unwrap().text, "Export in progress");
    assert!(!s.confirm_export(path.clone(), true, false));
    assert!(matches!(&s.dialog, Some(Dialog::Overwrite(p)) if *p == path));
    s.dialog = None;
    assert!(s.confirm_export(path.clone(), true, true));
    assert!(s.confirm_export(path.clone(), false, false));
    s.export_finished(&name, Ok(path.clone()));
    let last = s.notices.last().unwrap();
    assert_eq!(last.kind, ToastKind::Success);
    assert_eq!(last.text, "Exported Rock_MaskMap.png");
    assert_eq!(last.reveal, Some(path.clone()));
    assert_eq!(s.last_export, Some(path));
    s.export_finished(&name, Err("disk full".to_string()));
    assert_eq!(s.notices.last().unwrap().kind, ToastKind::Error);
    assert_eq!(s.notices.last().unwrap().text, "disk full");
}
