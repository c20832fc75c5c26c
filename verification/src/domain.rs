use vstd::prelude::*;

use crate::error::DomainError;
use crate::naming::{file_name_chars, file_name_of};
use crate::renderer::{
    image_dimensions, image_is_rgba8, image_pixels, lookup_renderer_color, renderer_color,
    rgba_filled,
};
use image::DynamicImage;
use crate::text::{
    ascii_lowercase, char_vec, collapsed, has_text, is_white_space, join_with,
    lemma_words_are_clean, lemma_words_rejoin_to_collapsed, lemma_trim_empty_iff_blank, split_words, string_from_chars, trim,
    trimmed, words_of,
};

verus! {

/// The text displayed in the generated image.
#[derive(Debug, PartialEq, Eq)]
pub struct Caption {
    text: String,
}

impl Clone for Caption {
    fn clone(&self) -> (copy: Self)
        ensures
            copy@ == self@,
    {
        proof {
            use_type_invariant(self);
        }
        Caption { text: self.text.clone() }
    }
}

impl View for Caption {
    type V = Seq<char>;

    closed spec fn view(&self) -> Seq<char> {
        self.text@
    }
}

impl Caption {
    #[verifier::type_invariant]
    spec fn holds_text(self) -> bool {
        has_text(self.text@)
    }

    /// Creates a caption, rejecting text that is empty or entirely whitespace.
    pub fn new(value: &str) -> (caption: Result<Self, DomainError>)
        ensures
            caption is Ok <==> has_text(value@),
            caption matches Ok(c) ==> c@ == value@,
            caption matches Err(e) ==> e == DomainError::EmptyCaption,
    {
        let chars = char_vec(value);
        let rest = trimmed(&chars);
        proof {
            lemma_trim_empty_iff_blank(value@);
        }
        if rest.len() == 0 {
            Err(DomainError::EmptyCaption)
        } else {
            Ok(Caption { text: value.to_owned() })
        }
    }

    /// The caption text as written.
    pub fn as_str(&self) -> (text: &str)
        ensures
            text@ == self@,
            has_text(text@),
    {
        proof {
            use_type_invariant(self);
        }
        self.text.as_str()
    }

    /// The caption split into words, with runs of whitespace collapsed.
    pub fn words(&self) -> (words: Vec<String>)
        ensures
            words.deep_view() == words_of(self@),
            join_with(words.deep_view(), ' ') == collapsed(self@),
            forall|i: int|
                0 <= i < words.deep_view().len() ==> #[trigger] words.deep_view()[i].len() > 0,
            forall|i: int, j: int|
                0 <= i < words.deep_view().len() && 0 <= j < words.deep_view()[i].len()
                    ==> !is_white_space(#[trigger] words.deep_view()[i][j]),
    {
        proof {
            lemma_words_rejoin_to_collapsed(self@);
            lemma_words_are_clean(self@);
        }
        let chars = char_vec(self.text.as_str());
        split_words(&chars)
    }

    /// A PNG file name derived deterministically from this caption.
    pub fn output_file_name(&self) -> (name: OutputFileName)
        ensures
            name@ == file_name_of(self@),
    {
        OutputFileName::from_caption(self)
    }
}

/// A safe PNG file name derived deterministically from a caption.
#[derive(Debug, Clone, PartialEq, Eq)]
pub struct OutputFileName {
    name: String,
}

impl View for OutputFileName {
    type V = Seq<char>;

    closed spec fn view(&self) -> Seq<char> {
        self.name@
    }
}

impl OutputFileName {
    fn from_caption(caption: &Caption) -> (name: Self)
        ensures
            name@ == file_name_of(caption@),
    {
        let chars = char_vec(caption.text.as_str());
        let name = file_name_chars(&chars);
        OutputFileName { name: string_from_chars(name.as_slice()) }
    }

    /// The file name, including the `.png` extension.
    pub fn as_str(&self) -> (name: &str)
        ensures
            name@ == self@,
    {
        self.name.as_str()
    }
}

/// Non-zero canvas dimensions.
#[derive(Debug, Clone, Copy, PartialEq, Eq)]
pub struct CanvasSize {
    width: u32,
    height: u32,
}

impl View for CanvasSize {
    type V = (u32, u32);

    closed spec fn view(&self) -> (u32, u32) {
        (self.width, self.height)
    }
}

impl CanvasSize {
    #[verifier::type_invariant]
    spec fn non_zero(self) -> bool {
        self.width > 0 && self.height > 0
    }

    /// Creates a canvas size from pixel dimensions.
    pub fn new(width: u32, height: u32) -> (canvas: Result<Self, DomainError>)
        ensures
            width == 0 ==> canvas == Err::<Self, DomainError>(DomainError::ZeroWidth),
            width > 0 && height == 0 ==> canvas == Err::<Self, DomainError>(
                DomainError::ZeroHeight,
            ),
            width > 0 && height > 0 ==> (canvas matches Ok(c) && c@ == (width, height)),
    {
        if width == 0 {
            Err(DomainError::ZeroWidth)
        } else if height == 0 {
            Err(DomainError::ZeroHeight)
        } else {
            Ok(CanvasSize { width, height })
        }
    }

    /// Canvas width in pixels.
    pub fn width(self) -> (width: u32)
        ensures
            width == self@.0,
            width > 0,
    {
        proof {
            use_type_invariant(&self);
        }
        self.width
    }

    /// Canvas height in pixels.
    pub fn height(self) -> (height: u32)
        ensures
            height == self@.1,
            height > 0,
    {
        proof {
            use_type_invariant(&self);
        }
        self.height
    }
}

/// A font size in pixels, never zero.
#[derive(Debug, Clone, Copy, PartialEq, Eq)]
pub struct FontPixels {
    pixels: u32,
}

impl View for FontPixels {
    type V = u32;

    closed spec fn view(&self) -> u32 {
        self.pixels
    }
}

impl FontPixels {
    #[verifier::type_invariant]
    spec fn non_zero(self) -> bool {
        self.pixels > 0
    }

    /// The size in pixels.
    pub fn get(self) -> (pixels: u32)
        ensures
            pixels == self@,
            pixels > 0,
    {
        proof {
            use_type_invariant(&self);
        }
        self.pixels
    }
}

/// The requested font-sizing rule.
#[derive(Debug, Clone, Copy, PartialEq, Eq)]
pub enum FontSizing {
    /// Grow the caption to the largest size that fits the canvas.
    Automatic,
    /// Draw the caption at exactly this many pixels.
    Fixed(FontPixels),
}

impl FontSizing {
    /// Requests an exact font size in pixels.
    pub fn fixed(pixels: u32) -> (sizing: Result<Self, DomainError>)
        ensures
            pixels == 0 ==> sizing == Err::<Self, DomainError>(DomainError::ZeroFontSize),
            pixels > 0 ==> (sizing matches Ok(FontSizing::Fixed(p)) && p@ == pixels),
    {
        if pixels == 0 {
            Err(DomainError::ZeroFontSize)
        } else {
            Ok(FontSizing::Fixed(FontPixels { pixels }))
        }
    }
}

/// A colour accepted by the renderer, parsed at the domain boundary.
#[derive(Debug, Clone, Copy, PartialEq, Eq)]
pub struct Color {
    red: u8,
    green: u8,
    blue: u8,
}

impl View for Color {
    type V = (u8, u8, u8);

    closed spec fn view(&self) -> (u8, u8, u8) {
        (self.red, self.green, self.blue)
    }
}

impl Color {
    /// Parses a colour name (`"Black"`) or RGB hex value (`"#4a90e2"`).
    pub fn parse(value: &str) -> (color: Result<Self, DomainError>)
        ensures
            color is Ok <==> renderer_color(value@) is Some,
            color matches Ok(c) ==> Some(c@) == renderer_color(value@),
            color matches Err(e) ==> e matches DomainError::InvalidColor(text) && text@ == value@,
    {
        let found = lookup_renderer_color(value);
        Color::from_lookup(value, found)
    }

    /// The colour for `value` given what the renderer read from it: the
    /// channels it found, or the error that names `value`.
    pub fn from_lookup(value: &str, found: Option<(u8, u8, u8)>) -> (color: Result<
        Self,
        DomainError,
    >)
        ensures
            color is Ok <==> found is Some,
            color matches Ok(c) ==> Some(c@) == found,
            color matches Err(e) ==> e matches DomainError::InvalidColor(text) && text@ == value@,
    {
        match found {
            Some((red, green, blue)) => Ok(Color { red, green, blue }),
            None => Err(DomainError::InvalidColor(value.to_owned())),
        }
    }

    /// The red, green and blue channels.
    pub fn rgb(self) -> (channels: (u8, u8, u8))
        ensures
            channels == self@,
    {
        (self.red, self.green, self.blue)
    }
}

/// The word that asks for a transparent background.
pub open spec fn transparent_word() -> Seq<char> {
    seq!['t', 'r', 'a', 'n', 's', 'p', 'a', 'r', 'e', 'n', 't']
}

/// `c` equals the lowercase ASCII letter `lower` up to ASCII case.
pub open spec fn ascii_case_eq(c: char, lower: char) -> bool {
    c == lower || ('A' <= c <= 'Z' && c as int + 32 == lower as int)
}

/// Whether `value`, trimmed, is "transparent" in any ASCII case.
pub open spec fn names_transparent(value: Seq<char>) -> bool {
    let t = trim(value);
    &&& t.len() == transparent_word().len()
    &&& forall|i: int| 0 <= i < t.len() ==> ascii_case_eq(#[trigger] t[i], transparent_word()[i])
}

/// A text names a transparent background exactly when, trimmed, it is the
/// eleven letters of "transparent", each in lower or upper case: its ASCII
/// lowercase is "transparent".
pub proof fn lemma_transparent_is_the_word(value: Seq<char>)
    ensures
        names_transparent(value) == ({
            let t = trim(value);
            &&& t.len() == 11
            &&& forall|i: int|
                0 <= i < 11 ==> ascii_lowercase(#[trigger] t[i]) == seq![
                    't',
                    'r',
                    'a',
                    'n',
                    's',
                    'p',
                    'a',
                    'r',
                    'e',
                    'n',
                    't',
                ][i]
        }),
{
    let t = trim(value);
    let w = seq!['t', 'r', 'a', 'n', 's', 'p', 'a', 'r', 'e', 'n', 't'];
    assert(transparent_word() == w);
    assert forall|i: int| 0 <= i < 11 implies ascii_case_eq(t[i], w[i]) == (ascii_lowercase(
        #[trigger] t[i],
    ) == w[i]) by {
        assert('a' <= w[i] <= 'z');
    }
}

fn is_transparent(value: &str) -> (b: bool)
    ensures
        b == names_transparent(value@),
{
    let chars = char_vec(value);
    let t = trimmed(&chars);
    let word = ['t', 'r', 'a', 'n', 's', 'p', 'a', 'r', 'e', 'n', 't'];
    assert(word@ == transparent_word());
    if t.len() != 11 {
        return false;
    }
    let mut i: usize = 0;
    while i < 11
        invariant
            i <= 11,
            t.len() == 11,
            word@ == transparent_word(),
            t@ == trim(value@),
            forall|k: int| 0 <= k < i ==> ascii_case_eq(#[trigger] t@[k], transparent_word()[k]),
        decreases 11 - i,
    {
        let c = t[i];
        let lower = word[i];
        let same = c == lower || ('A' <= c && c <= 'Z' && (c as u32) + 32 == (lower as u32));
        if !same {
            return false;
        }
        i = i + 1;
    }
    true
}

/// What the caption is drawn onto.
#[derive(Debug, Clone, Copy, PartialEq, Eq)]
pub enum Background {
    /// Leave the canvas fully transparent.
    Transparent,
    /// Fill the canvas with a single colour.
    Solid(Color),
}

impl Background {
    /// Parses `"transparent"` or any colour accepted by [`Color::parse`].
    pub fn parse(value: &str) -> (background: Result<Self, DomainError>)
        ensures
            names_transparent(value@) ==> background == Ok::<Self, DomainError>(
                Background::Transparent,
            ),
            !names_transparent(value@) ==> {
                &&& background is Ok <==> renderer_color(value@) is Some
                &&& background matches Ok(b) ==> b matches Background::Solid(c) && Some(c@)
                    == renderer_color(value@)
                &&& background matches Err(e) ==> e matches DomainError::InvalidColor(text)
                    && text@ == value@
            },
            background == Ok::<Self, DomainError>(Background::Transparent) ==> trim(value@).len()
                == 11 && forall|i: int|
                0 <= i < 11 ==> ascii_lowercase(#[trigger] trim(value@)[i])
                    == transparent_word()[i],
    {
        proof {
            lemma_transparent_is_the_word(value@);
        }
        if is_transparent(value) {
            Ok(Background::Transparent)
        } else {
            match Color::parse(value) {
                Ok(color) => Ok(Background::Solid(color)),
                Err(error) => Err(error),
            }
        }
    }

    /// The RGBA pixel that fills a blank canvas: clear for a transparent
    /// background, the opaque colour otherwise.
    pub fn fill(self) -> (pixel: [u8; 4])
        ensures
            pixel@ == fill_pixel(self),
            (pixel@[3] == 0) == (self is Transparent),
            self is Transparent ==> pixel@ == seq![0u8, 0u8, 0u8, 0u8],
            self matches Background::Solid(c) ==> pixel@[0] == c@.0 && pixel@[1]
                == c@.1 && pixel@[2] == c@.2 && pixel@[3] == 255,
    {
        proof {
            lemma_fill_is_the_colour(self);
        }
        match self {
            Background::Transparent => [0, 0, 0, 0],
            Background::Solid(color) => {
                let (red, green, blue) = color.rgb();
                [red, green, blue, 255]
            },
        }
    }
}

/// The RGBA pixel that fills a blank canvas with `background`.
pub open spec fn fill_pixel(background: Background) -> Seq<u8> {
    match background {
        Background::Transparent => seq![0u8, 0u8, 0u8, 0u8],
        Background::Solid(c) => seq![c@.0, c@.1, c@.2, 255u8],
    }
}

/// A transparent background fills with a clear pixel; a solid one fills with
/// its colour's red, green and blue channels at full opacity, so the alpha is
/// 0 exactly for a transparent background.
pub proof fn lemma_fill_is_the_colour(background: Background)
    ensures
        fill_pixel(background).len() == 4,
        (fill_pixel(background)[3] == 0) == (background is Transparent),
        background is Transparent ==> fill_pixel(background) == seq![0u8, 0u8, 0u8, 0u8],
        background matches Background::Solid(c) ==> fill_pixel(background)[0] == c@.0
            && fill_pixel(background)[1] == c@.1 && fill_pixel(background)[2]
            == c@.2 && fill_pixel(background)[3] == 255,
{
}

/// A canvas of the requested size with every pixel set to the background's
/// fill: clear for a transparent background, the opaque colour otherwise.
pub fn blank_canvas(canvas: CanvasSize, background: Background) -> (image: DynamicImage)
    requires
        canvas@.0 * canvas@.1 * 4 <= isize::MAX,
    ensures
        image_is_rgba8(image),
        image_dimensions(image) == canvas@,
        image_pixels(image) == Seq::new(
            (canvas@.0 * canvas@.1) as nat,
            |i: int| fill_pixel(background),
        ),
{
    let pixel = background.fill();
    let image = rgba_filled(canvas.width(), canvas.height(), pixel);
    assert(Seq::new((canvas@.0 * canvas@.1) as nat, |i: int| pixel@) =~= Seq::new(
        (canvas@.0 * canvas@.1) as nat,
        |i: int| fill_pixel(background),
    ));
    image
}

/// The visual rules for rendering a caption.
#[derive(Debug, Clone, Copy, PartialEq, Eq)]
pub struct TextStyle {
    color: Color,
    sizing: FontSizing,
}

impl TextStyle {
    /// The colour this style was made with.
    pub closed spec fn spec_color(self) -> Color {
        self.color
    }

    /// The sizing rule this style was made with.
    pub closed spec fn spec_sizing(self) -> FontSizing {
        self.sizing
    }

    /// Combines a text colour with a font-sizing rule.
    pub fn new(color: Color, sizing: FontSizing) -> (style: Self)
        ensures
            style.spec_color() == color,
            style.spec_sizing() == sizing,
    {
        TextStyle { color, sizing }
    }

    /// The text colour.
    pub fn color(self) -> (color: Color)
        ensures
            color == self.spec_color(),
    {
        self.color
    }

    /// The font-sizing rule.
    pub fn sizing(self) -> (sizing: FontSizing)
        ensures
            sizing == self.spec_sizing(),
    {
        self.sizing
    }
}

/// A complete, valid description of an image to render.
#[derive(Debug, Clone, PartialEq, Eq)]
pub struct ImageSpec {
    caption: Caption,
    canvas: CanvasSize,
    text_style: TextStyle,
    background: Background,
}

impl ImageSpec {
    /// The caption this specification was made with.
    pub closed spec fn spec_caption(self) -> Caption {
        self.caption
    }

    /// The canvas this specification was made with.
    pub closed spec fn spec_canvas(self) -> CanvasSize {
        self.canvas
    }

    /// The text style this specification was made with.
    pub closed spec fn spec_text_style(self) -> TextStyle {
        self.text_style
    }

    /// The background this specification was made with.
    pub closed spec fn spec_background(self) -> Background {
        self.background
    }

    /// Assembles a specification from already-validated parts.
    pub fn new(
        caption: Caption,
        canvas: CanvasSize,
        text_style: TextStyle,
        background: Background,
    ) -> (spec: Self)
        ensures
            spec.spec_caption() == caption,
            spec.spec_canvas() == canvas,
            spec.spec_text_style() == text_style,
            spec.spec_background() == background,
    {
        ImageSpec { caption, canvas, text_style, background }
    }

    /// The caption to draw.
    pub fn caption(&self) -> (caption: &Caption)
        ensures
            *caption == self.spec_caption(),
    {
        &self.caption
    }

    /// The canvas dimensions.
    pub fn canvas(&self) -> (canvas: CanvasSize)
        ensures
            canvas == self.spec_canvas(),
    {
        self.canvas
    }

    /// The text colour and sizing rule.
    pub fn text_style(&self) -> (style: TextStyle)
        ensures
            style == self.spec_text_style(),
    {
        self.text_style
    }

    /// The canvas fill.
    pub fn background(&self) -> (background: Background)
        ensures
            background == self.spec_background(),
    {
        self.background
    }
}

} // verus!
