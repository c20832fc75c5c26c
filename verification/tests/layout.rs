use imatree::{join_lines, line_width, space_width, widest_line, wrap, Caption};

/// Widths in the manner of a monospace font: ten pixels a character.
fn monospace(words: &[String]) -> Vec<u32> {
    words
        .iter()
        .map(|word| 10 * word.chars().count() as u32)
        .collect()
}

#[test]
fn wrapping_fills_each_line_greedily() {
    let widths = [50, 50, 70, 50];

    assert_eq!(wrap(&widths, 10, 110), vec![0..2, 2..3, 3..4]);
    assert_eq!(wrap(&widths, 10, 130), vec![0..2, 2..4]);
    assert_eq!(wrap(&widths, 10, 1000), vec![0..4]);
}

#[test]
fn a_line_that_reaches_the_limit_exactly_still_fits() {
    assert_eq!(wrap(&[50, 50], 10, 110), vec![0..2]);
    assert_eq!(wrap(&[50, 50], 10, 109), vec![0..1, 1..2]);
}

#[test]
fn a_word_wider_than_the_limit_gets_a_line_of_its_own() {
    assert_eq!(wrap(&[30, 500, 30], 10, 100), vec![0..1, 1..2, 2..3]);
}

#[test]
fn wrapping_no_words_gives_one_empty_line() {
    assert_eq!(wrap(&[], 10, 100), vec![0..0]);
}

#[test]
fn line_widths_count_the_spaces_between_words() {
    let widths = [50, 50, 70];

    assert_eq!(line_width(&widths, 10, 0..3), 190);
    assert_eq!(line_width(&widths, 10, 1..2), 50);
    assert_eq!(line_width(&widths, 10, 2..2), 0);
    assert_eq!(widest_line(&widths, 10, &[0..1, 1..3]), 130);
    assert_eq!(widest_line(&widths, 10, &[]), 0);
}

#[test]
fn space_width_is_never_negative() {
    assert_eq!(space_width(130, 100), 30);
    assert_eq!(space_width(90, 100), 0);
}

#[test]
fn wrapped_lines_keep_every_word_in_order() {
    let caption = Caption::new("alpha bravo charlie delta echo foxtrot").unwrap();
    let words = caption.words();
    let lines = wrap(&monospace(&words), 10, 130);
    let texts = join_lines(&words, &lines);

    assert_eq!(
        texts,
        vec!["alpha bravo", "charlie delta", "echo foxtrot"]
    );
    assert_eq!(texts.join(" "), "alpha bravo charlie delta echo foxtrot");
}

#[test]
fn wrapped_lines_collapse_caption_white_space() {
    let caption = Caption::new("  spaced \n\t out  ").unwrap();
    let words = caption.words();
    let lines = wrap(&monospace(&words), 10, 1000);

    assert_eq!(join_lines(&words, &lines), vec!["spaced out"]);
}

#[test]
fn more_room_never_adds_lines() {
    let widths = [50, 50, 70, 50, 40, 70];
    let mut previous = wrap(&widths, 10, 0).len();

    for limit in [60, 100, 110, 130, 200, 400, 1000] {
        let lines = wrap(&widths, 10, limit).len();
        assert!(lines <= previous, "{lines} lines at {limit}, {previous} before");
        previous = lines;
    }
    assert_eq!(wrap(&widths, 10, 0).len(), 6);
    assert_eq!(wrap(&widths, 10, 1000), vec![0..6]);
}
