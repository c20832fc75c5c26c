use imatree::naming::{file_name_chars, file_name_from_marked};
use imatree::text::{char_vec, is_whitespace, split_words, trimmed};

fn text(chars: &[char]) -> String {
    chars.iter().collect()
}

#[test]
fn marked_characters_build_the_stem() {
    let marks = [('h', true), ('i', true), (' ', false), ('x', true)];

    assert_eq!(text(&file_name_from_marked(&marks)), "hi_x.png");
}

#[test]
fn only_the_marks_decide_what_is_kept() {
    let marks = [('!', true), ('a', false), ('_', false), ('b', true)];

    assert_eq!(text(&file_name_from_marked(&marks)), "!_b.png");
}

#[test]
fn no_marked_characters_fall_back_to_image() {
    assert_eq!(text(&file_name_from_marked(&[])), "image.png");
    assert_eq!(
        text(&file_name_from_marked(&[(' ', false), ('_', false)])),
        "image.png"
    );
}

#[test]
fn trailing_underscores_never_end_a_stem() {
    let marks = [('a', true), ('_', true), ('_', true)];

    assert_eq!(text(&file_name_from_marked(&marks)), "a.png");
}

#[test]
fn file_names_come_from_caption_characters() {
    let caption = char_vec("  Hello,   Functional_World!  ");

    assert_eq!(text(&file_name_chars(&caption)), "hello_functional_world.png");
}

#[test]
fn trimming_removes_unicode_white_space_at_both_ends() {
    let chars = char_vec("\u{3000} a b \u{a0}\n");

    assert_eq!(text(&trimmed(&chars)), "a b");
    assert_eq!(text(&trimmed(&char_vec(" \t "))), "");
}

#[test]
fn characters_are_read_in_order() {
    assert_eq!(char_vec("héllo"), vec!['h', 'é', 'l', 'l', 'o']);
    assert_eq!(char_vec(""), Vec::<char>::new());
}

#[test]
fn words_are_split_at_white_space_runs() {
    assert_eq!(
        split_words(&char_vec("\tone  two\nthree ")),
        vec!["one", "two", "three"]
    );
    assert!(split_words(&char_vec("   ")).is_empty());
}

#[test]
fn white_space_is_what_std_says_it_is() {
    for code in 0..=0x10ffff_u32 {
        if let Some(c) = char::from_u32(code) {
            assert_eq!(is_whitespace(c), c.is_whitespace(), "{code:#x}");
        }
    }
}

#[test]
fn a_non_ascii_derived_stem_derives_the_same_name() {
    let name = imatree::Caption::new("Ñandú 42").unwrap().output_file_name();
    let stem = &name.as_str()[..name.as_str().len() - 4];

    assert_eq!(name.as_str(), "ñandú_42.png");
    assert_eq!(imatree::Caption::new(stem).unwrap().output_file_name(), name);
}
