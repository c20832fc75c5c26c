use image::GenericImageView;
use imatree::{
    blank_canvas, Background, CanvasSize, Caption, Color, DomainError, FontSizing, ImageSpec, RenderError,
    TextStyle,
};

#[test]
fn caption_rejects_blank_text() {
    assert_eq!(Caption::new(" \n\t"), Err(DomainError::EmptyCaption));
}

#[test]
fn output_file_name_is_safe_and_stable() {
    let caption = Caption::new("  Hello,   Functional_World!  ").unwrap();

    assert_eq!(
        caption.output_file_name().as_str(),
        "hello_functional_world.png"
    );
}

#[test]
fn output_file_name_has_a_fallback_for_symbols() {
    let caption = Caption::new("✨ !!!").unwrap();

    assert_eq!(caption.output_file_name().as_str(), "image.png");
}

#[test]
fn canvas_dimensions_must_be_non_zero() {
    assert_eq!(CanvasSize::new(0, 100), Err(DomainError::ZeroWidth));
    assert_eq!(CanvasSize::new(100, 0), Err(DomainError::ZeroHeight));
}

#[test]
fn an_explicit_font_size_must_be_non_zero() {
    assert_eq!(FontSizing::fixed(0), Err(DomainError::ZeroFontSize));
    assert!(matches!(FontSizing::fixed(42), Ok(FontSizing::Fixed(_))));
}

#[test]
fn invalid_colors_are_rejected_at_the_boundary() {
    assert_eq!(
        Color::parse("not a color"),
        Err(DomainError::InvalidColor("not a color".to_owned()))
    );
    assert!(Color::parse("#4a90e2").is_ok());
    assert!(Color::parse("Black").is_ok());
}

#[test]
fn colors_expose_their_channels() {
    assert_eq!(Color::parse("#4a90e2").unwrap().rgb(), (0x4a, 0x90, 0xe2));
}

#[test]
fn backgrounds_accept_transparency_and_colors() {
    assert_eq!(
        Background::parse("transparent"),
        Ok(Background::Transparent)
    );
    assert_eq!(
        Background::parse("TRANSPARENT"),
        Ok(Background::Transparent)
    );
    assert_eq!(
        Background::parse("White"),
        Ok(Background::Solid(Color::parse("White").unwrap()))
    );
    assert_eq!(
        Background::parse("nonsense"),
        Err(DomainError::InvalidColor("nonsense".to_owned()))
    );
}

#[test]
fn captions_are_split_into_words() {
    let caption = Caption::new("  two \n\t words  ").unwrap();

    assert_eq!(caption.words(), vec!["two", "words"]);
}

#[test]
fn a_caption_keeps_its_text_as_written() {
    let caption = Caption::new("  Hello,\tWorld ").unwrap();

    assert_eq!(caption.as_str(), "  Hello,\tWorld ");
    assert_eq!(caption.clone(), caption);
}

#[test]
fn unicode_white_space_alone_is_not_a_caption() {
    assert_eq!(
        Caption::new("\u{3000}\u{a0}\u{2028}"),
        Err(DomainError::EmptyCaption)
    );
    assert!(Caption::new("\u{3000}x").is_ok());
}

#[test]
fn an_empty_caption_is_rejected() {
    assert_eq!(Caption::new(""), Err(DomainError::EmptyCaption));
}

#[test]
fn caption_words_split_on_unicode_white_space() {
    let caption = Caption::new("one\u{3000}two\u{2028}\u{a0}three").unwrap();

    assert_eq!(caption.words(), vec!["one", "two", "three"]);
}

#[test]
fn file_names_lowercase_non_ascii_letters() {
    let caption = Caption::new("ÉCOLE Ünïcode").unwrap();

    assert_eq!(caption.output_file_name().as_str(), "école_ünïcode.png");
}

#[test]
fn file_names_collapse_symbols_to_underscores() {
    let caption = Caption::new("Don't stop!").unwrap();

    assert_eq!(caption.output_file_name().as_str(), "don_t_stop.png");
}

#[test]
fn file_names_split_at_hyphens() {
    let caption = Caption::new("Hello-World").unwrap();

    assert_eq!(caption.output_file_name().as_str(), "hello_world.png");
    assert_eq!(
        Caption::new("a-b").unwrap().output_file_name().as_str(),
        "a_b.png"
    );
}

#[test]
fn a_derived_stem_derives_the_same_name() {
    let name = Caption::new("  Hello,   Functional_World!  ")
        .unwrap()
        .output_file_name();
    let stem = &name.as_str()[..name.as_str().len() - 4];

    assert_eq!(Caption::new(stem).unwrap().output_file_name(), name);
}

#[test]
fn file_names_collapse_separator_runs_and_symbols_between_them() {
    let caption = Caption::new("a _ ! __ b").unwrap();

    assert_eq!(caption.output_file_name().as_str(), "a_b.png");
}

#[test]
fn file_names_drop_leading_and_trailing_separators() {
    let caption = Caption::new("__Hello__").unwrap();

    assert_eq!(caption.output_file_name().as_str(), "hello.png");
}

#[test]
fn file_names_keep_digits() {
    let caption = Caption::new("Route 66").unwrap();

    assert_eq!(caption.output_file_name().as_str(), "route_66.png");
}

#[test]
fn file_names_are_derived_deterministically() {
    let first = Caption::new("Hello There").unwrap();
    let second = Caption::new("Hello There").unwrap();

    assert_eq!(first.output_file_name(), second.output_file_name());
    assert_eq!(first.output_file_name().as_str(), "hello_there.png");
}

#[test]
fn canvas_sizes_return_their_dimensions() {
    let canvas = CanvasSize::new(320, 180).unwrap();

    assert_eq!((canvas.width(), canvas.height()), (320, 180));
    assert_eq!(CanvasSize::new(0, 0), Err(DomainError::ZeroWidth));
}

#[test]
fn fixed_font_sizes_keep_their_pixels() {
    match FontSizing::fixed(42).unwrap() {
        FontSizing::Fixed(pixels) => assert_eq!(pixels.get(), 42),
        FontSizing::Automatic => panic!("expected a fixed size"),
    }
}

#[test]
fn colors_are_read_from_names_and_short_hex() {
    assert_eq!(Color::parse("Black").unwrap().rgb(), (0, 0, 0));
    assert_eq!(Color::parse("White").unwrap().rgb(), (255, 255, 255));
    assert_eq!(Color::parse("#7aE").unwrap().rgb(), (0x77, 0xaa, 0xee));
    assert_eq!(Color::parse("aquamarine").unwrap().rgb(), (127, 255, 212));
    assert_eq!(
        Color::parse("#77094"),
        Err(DomainError::InvalidColor("#77094".to_owned()))
    );
}

#[test]
fn colors_are_built_from_what_the_renderer_found() {
    assert_eq!(
        Color::from_lookup("anything", Some((1, 2, 3))).unwrap().rgb(),
        (1, 2, 3)
    );
    assert_eq!(
        Color::from_lookup("anything", None),
        Err(DomainError::InvalidColor("anything".to_owned()))
    );
}

#[test]
fn backgrounds_trim_before_looking_for_transparency() {
    assert_eq!(
        Background::parse("  Transparent \n"),
        Ok(Background::Transparent)
    );
    assert_eq!(
        Background::parse("transparentx"),
        Err(DomainError::InvalidColor("transparentx".to_owned()))
    );
}

#[test]
fn backgrounds_fill_with_their_colour() {
    assert_eq!(Background::Transparent.fill(), [0, 0, 0, 0]);
    assert_eq!(
        Background::parse("#4a90e2").unwrap().fill(),
        [0x4a, 0x90, 0xe2, 255]
    );
}

#[test]
fn image_specs_return_their_parts() {
    let caption = Caption::new("Functional domains").unwrap();
    let canvas = CanvasSize::new(1000, 800).unwrap();
    let style = TextStyle::new(Color::parse("#4a90e2").unwrap(), FontSizing::Automatic);
    let background = Background::parse("White").unwrap();
    let spec = ImageSpec::new(caption.clone(), canvas, style, background);

    assert_eq!(spec.caption(), &caption);
    assert_eq!(spec.canvas(), canvas);
    assert_eq!(spec.text_style(), style);
    assert_eq!(spec.background(), background);
    assert_eq!(style.color().rgb(), (0x4a, 0x90, 0xe2));
    assert_eq!(style.sizing(), FontSizing::Automatic);
}

#[test]
fn does_not_fit_names_the_canvas() {
    let canvas = CanvasSize::new(10, 20).unwrap();

    assert!(matches!(
        RenderError::does_not_fit(canvas),
        RenderError::DoesNotFit {
            width: 10,
            height: 20
        }
    ));
}

#[test]
fn blank_canvases_are_filled_with_the_background() {
    let canvas = CanvasSize::new(3, 2).unwrap();
    let solid = blank_canvas(canvas, Background::parse("#4a90e2").unwrap());
    let clear = blank_canvas(canvas, Background::Transparent);

    assert_eq!(solid.dimensions(), (3, 2));
    assert_eq!(solid.get_pixel(2, 1).0, [0x4a, 0x90, 0xe2, 255]);
    assert_eq!(clear.get_pixel(0, 0).0, [0, 0, 0, 0]);
    assert_eq!(clear.color(), image::ColorType::Rgba8);
}
