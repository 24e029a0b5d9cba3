use tetrachrome::lang::{Translator, count, fill, load, parse, t};
use tetrachrome::model::{Engine, Preset};

#[test]
fn fill_and_plurals() {
    assert_eq!(fill("{} of {} failed", &[2.to_string(), 5.to_string()]), "2 of 5 failed");
    assert_eq!(fill("no values {}", &[]), "no values {}");
    let f = |n| count(n, true, ["image", "images"], ["картинка", "картинки", "картинок"]);
    assert_eq!(f(1), "1 картинка");
    assert_eq!(f(3), "3 картинки");
    assert_eq!(f(5), "5 картинок");
    assert_eq!(f(11), "11 картинок");
    assert_eq!(f(22), "22 картинки");
}

#[test]
fn english_plurals() {
    let f = |n| count(n, false, ["image", "images"], ["картинка", "картинки", "картинок"]);
    assert_eq!(f(0), "0 images");
    assert_eq!(f(1), "1 image");
    assert_eq!(f(21), "21 images");
    let r = |n| count(n, true, ["image", "images"], ["картинка", "картинки", "картинок"]);
    assert_eq!(r(0), "0 картинок");
    assert_eq!(r(12), "12 картинок");
    assert_eq!(r(101), "101 картинка");
    assert_eq!(r(114), "114 картинок");
}

#[test]
fn extra_values_are_dropped() {
    assert_eq!(fill("{}", &["a".to_string(), "b".to_string()]), "a");
    assert_eq!(fill("{}{}", &["a".to_string()]), "a{}");
    assert_eq!(fill("{x}", &["a".to_string()]), "{x}");
}

#[test]
fn translation_table() {
    let ru = parse("# comment\nOther\tДругое\r\nNew preset\tНовый пресет\n\nno tab here\nOther\tПрочее");
    let tr = Translator { russian: true, ru };
    assert_eq!(t(&tr, "Other"), "Прочее");
    assert_eq!(t(&tr, "New preset"), "Новый пресет");
    assert_eq!(t(&tr, "Missing"), "Missing");
    assert_eq!(Engine::Other.label(&tr), "Прочее");
    assert_eq!(Engine::Unity.label(&tr), "Unity");
    let en = Translator { russian: false, ru: parse("Other\tДругое\n") };
    assert_eq!(t(&en, "Other"), "Other");
    assert_eq!(Engine::Other.label(&en), "Other");
}

#[test]
fn translations_keep_their_holes() {
    let good = tetrachrome::lang::parse("{} of {} failed\t{} из {} не вышло\nDone\tГотово\n");
    assert!(good.holes_match());
    let bad = tetrachrome::lang::parse("{} of {} failed\t{} не вышло\n");
    assert!(!bad.holes_match());
    // A later line for the same string is the one that counts.
    let fixed = tetrachrome::lang::parse("x {}\ty\nx {}\ty {}\n");
    assert!(fixed.holes_match());
    assert!(tetrachrome::lang::parse("").holes_match());
}

#[test]
fn a_table_that_loses_holes_is_not_used() {
    let good = load("Deleted preset “{}”\tУдалён пресет «{}»\nOther\tДругое");
    let tr = Translator { russian: true, ru: good };
    assert_eq!(t(&tr, "Deleted preset “{}”"), "Удалён пресет «{}»");
    let bad = load("Deleted preset “{}”\tУдалён пресет\nOther\tДругое");
    let tr = Translator { russian: true, ru: bad };
    assert_eq!(t(&tr, "Other"), "Other");
    assert_eq!(t(&tr, "Deleted preset “{}”"), "Deleted preset “{}”");
}

#[test]
fn a_blank_preset_is_named_in_the_interface_language() {
    let tr = Translator { russian: true, ru: parse("New preset\tНовый пресет") };
    let p = Preset::blank(&tr);
    assert_eq!(p.name, "Новый пресет");
    assert_eq!(p.label, "_Packed");
    assert_eq!(p.slots[3].fill, 255);
    assert_eq!(p.slots[0].fill, 0);
    let en = Translator { russian: false, ru: parse("New preset\tНовый пресет") };
    assert_eq!(Preset::blank(&en).name, "New preset");
    assert_eq!(Preset::default().name, "New preset");
}
