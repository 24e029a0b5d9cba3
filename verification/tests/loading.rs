use tetrachrome::model::{Channel, OutputFormat, SizePolicy};
use tetrachrome::session::{Session, SourceInfo};
use tetrachrome::state::{LoadTarget, OutputSettings, ToastKind};

fn session() -> Session {
    let output = OutputSettings {
        template: "{basename}{label}".to_string(),
        format: OutputFormat::Png,
        sixteen: false,
        folder: None,
        policy: SizePolicy::Largest,
        custom: (1024, 1024),
        overwrite: false,
    };
    Session::new(Vec::new(), output)
}

fn image(id: u64, path: &str) -> SourceInfo {
    let name = path.rsplit('/').next().unwrap().to_string();
    SourceInfo { id, path: path.to_string(), name, width: 16, height: 16 }
}

fn strings(v: &[&str]) -> Vec<String> {
    v.iter().map(|s| s.to_string()).collect()
}

#[test]
fn known_files_are_placed_without_reading() {
    let mut s = session();
    s.add_to_library(image(1, "m/Rock_AO.png"));
    let fresh = s.open_files(&strings(&["m/Rock_AO.png", "m/notes.txt", "m/Rock_Metal.png"]), LoadTarget::Auto { single: false });
    assert_eq!(fresh, strings(&["m/Rock_Metal.png"]));
    assert_eq!(s.slots[Channel::G.index()].as_ref().map(|x| x.id), Some(1));
    // The library target leaves known files alone.
    let fresh = s.open_files(&strings(&["m/ROCK_AO.PNG", "m/Wood_AO.png"]), LoadTarget::Library);
    assert_eq!(fresh, strings(&["m/Wood_AO.png"]));
    // Reading again always goes to disk.
    let fresh = s.open_files(&strings(&["m/Rock_AO.png"]), LoadTarget::Replace(1));
    assert_eq!(fresh, strings(&["m/Rock_AO.png"]));
}

#[test]
fn no_images_gives_a_warning() {
    let mut s = session();
    let fresh = s.open_files(&strings(&["readme.md", "a/b"]), LoadTarget::Auto { single: true });
    assert!(fresh.is_empty());
    let last = s.notices.last().unwrap();
    assert_eq!(last.kind, ToastKind::Warning);
    assert_eq!(last.text, "No supported images (PNG, TGA, TIFF, JPG, BMP, EXR)");
}

#[test]
fn the_fullest_material_goes_into_the_channels() {
    let mut s = session();
    let files = strings(&[
        "t/Rock_AO.png",
        "t/Rock_Metallic.png",
        "t/Rock_Smoothness.png",
        "t/Wood_AO.png",
        "t/Wood_Albedo.png",
    ]);
    let requests = s.open_paths(&files);
    assert_eq!(requests.len(), 2);
    assert_eq!(requests[0].0, strings(&["t/Rock_Metallic.png", "t/Rock_AO.png", "t/Rock_Smoothness.png"]));
    assert_eq!(requests[0].1, LoadTarget::Auto { single: false });
    assert_eq!(requests[1].0, strings(&["t/Wood_AO.png", "t/Wood_Albedo.png"]));
    assert_eq!(requests[1].1, LoadTarget::Library);
    let last = s.notices.last().unwrap();
    assert_eq!(last.kind, ToastKind::Info);
    assert_eq!(
        last.text,
        "Loaded “Rock”. 1 more material went to the library — Batch mode packs them all at once."
    );
}

#[test]
fn a_single_file_and_unmatched_heaps() {
    let mut s = session();
    let requests = s.open_paths(&strings(&["t/photo.jpg"]));
    assert_eq!(requests, vec![(strings(&["t/photo.jpg"]), LoadTarget::Auto { single: true })]);
    let requests = s.open_paths(&strings(&["t/a.png", "t/b.png"]));
    assert_eq!(requests, vec![(strings(&["t/a.png", "t/b.png"]), LoadTarget::Library)]);
    assert_eq!(
        s.notices.last().unwrap().text,
        "No file names match this preset's suffixes — pick maps from the library on each card"
    );
}

#[test]
fn reload_asks_for_each_image_once() {
    let mut s = session();
    let rock = image(4, "t/Rock_AO.png");
    s.add_to_library(rock.copy());
    s.add_to_library(image(5, "t/other.png"));
    s.place(&rock, LoadTarget::Slot(Channel::G));
    s.place(&rock, LoadTarget::Slot(Channel::B));
    s.place(&image(6, "t/Rock_Metal.png"), LoadTarget::Slot(Channel::R));
    let requests = s.reload_sources();
    assert_eq!(
        requests,
        vec![
            (strings(&["t/Rock_Metal.png"]), LoadTarget::Replace(6)),
            (strings(&["t/Rock_AO.png"]), LoadTarget::Replace(4)),
        ]
    );
    assert_eq!(s.library.len(), 1);
    assert_eq!(s.library[0].id, 5);
    assert_eq!(s.notices.last().unwrap().text, "Reloading sources from disk…");
    let mut empty = session();
    assert!(empty.reload_sources().is_empty());
    assert!(empty.notices.is_empty());
}
