use tetrachrome::model::SizePolicy;
use tetrachrome::lang::{parse, Dictionary, Translator};
use tetrachrome::size::{sample_position, size_problem, target_size};

#[test]
fn target_policies() {
    let sizes = [(1024, 1024), (2048, 2048), (512, 512)];
    assert_eq!(target_size(&sizes, SizePolicy::Largest, (1, 1)), Some((2048, 2048)));
    assert_eq!(target_size(&sizes, SizePolicy::Smallest, (1, 1)), Some((512, 512)));
    assert_eq!(target_size(&[], SizePolicy::Custom, (99999, 300)), Some((8192, 300)));
    assert_eq!(target_size(&[], SizePolicy::Largest, (1, 1)), None);
}

#[test]
fn ties_pick_last_largest_and_first_smallest() {
    let sizes = [(100, 200), (200, 100), (50, 50), (10, 250)];
    assert_eq!(target_size(&sizes, SizePolicy::Largest, (1, 1)), Some((200, 100)));
    let sizes = [(10, 250), (50, 50), (250, 10)];
    assert_eq!(target_size(&sizes, SizePolicy::Smallest, (1, 1)), Some((10, 250)));
    assert_eq!(target_size(&[], SizePolicy::Custom, (0, 0)), Some((1, 1)));
}

#[test]
fn nearest_source_pixel() {
    assert_eq!(sample_position(3, 0, (4, 1), (4, 1)), (3, 0));
    assert_eq!(sample_position(1, 0, (4, 1), (2, 1)), (2, 0));
    assert_eq!(sample_position(9, 9, (4, 4), (8, 8)), (3, 3));
    assert_eq!(sample_position(5, 5, (4, 4), (0, 0)), (3, 3));
}

#[test]
fn images_over_the_limit_are_refused() {
    let english = Translator { russian: false, ru: Dictionary::new() };
    assert_eq!(size_problem(&english, 8192, 8192), None);
    assert_eq!(size_problem(&english, 1, 1), None);
    assert_eq!(
        size_problem(&english, 8193, 100),
        Some("8193×100 is larger than the 8192×8192 limit".to_string())
    );
    assert!(size_problem(&english, 100, 10000).is_some());
    let russian = Translator { russian: true, ru: parse("{}×{} is larger than the {} limit\t{}×{} больше предела {}") };
    assert_eq!(size_problem(&russian, 9000, 9000), Some("9000×9000 больше предела 8192×8192".to_string()));
}
