use tetrachrome::settings::path;
use tetrachrome::source::{display_name, is_image, same_path};

#[test]
fn images_by_extension() {
    assert!(is_image("a/b/Rock_AO.png"));
    assert!(is_image("Rock.TIFF"));
    assert!(is_image("rock.Exr"));
    assert!(!is_image("notes.txt"));
    assert!(!is_image("png"));
}

#[test]
fn names_of_paths() {
    assert_eq!(display_name("a/b/Rock_AO.png"), "Rock_AO.png");
    assert_eq!(display_name(".."), "..");
    assert!(same_path("a/Rock.png", "A/ROCK.PNG"));
    assert!(!same_path("a/Rock.png", "a/Wood.png"));
    assert_eq!(path("dir/presets.json"), "dir/settings.json");
}
