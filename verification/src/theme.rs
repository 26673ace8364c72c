//! Themes and their colors.
use crate::text::{chars_of, is_text};
use vstd::prelude::*;

verus! {

/// How the window looks.
#[derive(Debug, Clone, Copy, PartialEq, Eq, Structural)]
pub enum UiTheme {
    Graphite,
    Frost,
    Retrowave,
}

/// A color: red, green, blue and opacity, the first three as far as the opacity
/// lets them through.
#[derive(Debug, Clone, Copy, PartialEq, Eq, Structural)]
pub struct Rgba {
    pub r: u8,
    pub g: u8,
    pub b: u8,
    pub a: u8,
}

/// A color that lets nothing through.
#[derive(Debug, Clone, Copy, PartialEq, Eq, Structural)]
pub struct Rgb {
    pub r: u8,
    pub g: u8,
    pub b: u8,
}

impl UiTheme {
    /// The name of the theme.
    pub open spec fn name(self) -> Seq<char> {
        match self {
            UiTheme::Graphite => "Graphite"@,
            UiTheme::Frost => "Frost"@,
            UiTheme::Retrowave => "Retrowave"@,
        }
    }

    /// The name under which the theme is stored.
    pub open spec fn stored(self) -> Seq<char> {
        match self {
            UiTheme::Graphite => "graphite"@,
            UiTheme::Frost => "frost"@,
            UiTheme::Retrowave => "retrowave"@,
        }
    }

    /// The theme that is stored under a name; Graphite for any other name.
    pub open spec fn of_stored(value: Seq<char>) -> UiTheme {
        if value == "frost"@ {
            UiTheme::Frost
        } else if value == "retrowave"@ {
            UiTheme::Retrowave
        } else {
            UiTheme::Graphite
        }
    }

    /// All themes, in the order in which they are offered.
    pub fn all() -> (r: Vec<UiTheme>)
        ensures
            r@ == seq![UiTheme::Graphite, UiTheme::Frost, UiTheme::Retrowave],
    {
        let mut themes: Vec<UiTheme> = Vec::new();
        themes.push(UiTheme::Graphite);
        themes.push(UiTheme::Frost);
        themes.push(UiTheme::Retrowave);
        proof {
            assert(themes@ =~= seq![UiTheme::Graphite, UiTheme::Frost, UiTheme::Retrowave]);
        }
        themes
    }

    /// The name of the theme.
    pub fn label(self) -> (r: &'static str)
        ensures
            r@ == self.name(),
    {
        match self {
            UiTheme::Graphite => "Graphite",
            UiTheme::Frost => "Frost",
            UiTheme::Retrowave => "Retrowave",
        }
    }

    /// What the theme looks like, in a few words.
    pub fn description(self) -> (r: &'static str)
        ensures
            r@ == match self {
                UiTheme::Graphite => "Dark neutral, low glare"@,
                UiTheme::Frost => "Bright desktop clarity"@,
                UiTheme::Retrowave => "Neon arcade contrast"@,
            },
    {
        match self {
            UiTheme::Graphite => "Dark neutral, low glare",
            UiTheme::Frost => "Bright desktop clarity",
            UiTheme::Retrowave => "Neon arcade contrast",
        }
    }

    /// The name under which the theme is stored.
    pub fn storage_value(self) -> (r: &'static str)
        ensures
            r@ == self.stored(),
    {
        match self {
            UiTheme::Graphite => "graphite",
            UiTheme::Frost => "frost",
            UiTheme::Retrowave => "retrowave",
        }
    }

    /// The theme that is stored under a name; Graphite for any other name.
    pub fn from_storage(value: &str) -> (r: UiTheme)
        ensures
            r == UiTheme::of_stored(value@),
    {
        let chars: Vec<char> = chars_of(value);
        if is_text(chars.as_slice(), "frost") {
            UiTheme::Frost
        } else if is_text(chars.as_slice(), "retrowave") {
            UiTheme::Retrowave
        } else {
            UiTheme::Graphite
        }
    }
}

/// A theme that has been stored is found again.
pub proof fn law_a_stored_theme_is_found_again(theme: UiTheme)
    ensures
        UiTheme::of_stored(theme.stored()) == theme,
{
    reveal_strlit("graphite");
    reveal_strlit("frost");
    reveal_strlit("retrowave");
    assert("graphite"@.len() == 8 && "frost"@.len() == 5 && "retrowave"@.len() == 9);
}

/// A share of a color that an opacity lets through, rounded to the nearest number.
pub open spec fn let_through(channel: u8, opacity: u8) -> int {
    (channel * opacity + 127) / 255
}

/// The color that is seen where a color has an opacity.
pub open spec fn seen_color(color: Rgb, opacity: u8) -> Rgba {
    Rgba {
        r: let_through(color.r, opacity) as u8,
        g: let_through(color.g, opacity) as u8,
        b: let_through(color.b, opacity) as u8,
        a: opacity,
    }
}

/// `egui::Color32::from_rgba_unmultiplied` and `to_array`: each of red, green and
/// blue is multiplied by the opacity, as a part of 255, and rounded to the nearest
/// number; the opacity is kept.
#[verifier::external_body]
fn premultiply(r: u8, g: u8, b: u8, a: u8) -> (seen: Rgba)
    ensures
        seen == seen_color((Rgb { r, g, b }), a),
{
    let [r, g, b, a] = egui::Color32::from_rgba_unmultiplied(r, g, b, a).to_array();
    Rgba { r, g, b, a }
}

/// A color with an opacity.
pub fn color_with_alpha(color: Rgb, alpha: u8) -> (r: Rgba)
    ensures
        r == seen_color(color, alpha),
{
    premultiply(color.r, color.g, color.b, alpha)
}

/// The color of effects.
pub open spec fn effect_color(theme: UiTheme) -> Rgb {
    match theme {
        UiTheme::Graphite => Rgb { r: 230, g: 236, b: 245 },
        UiTheme::Frost => Rgb { r: 35, g: 100, b: 150 },
        UiTheme::Retrowave => Rgb { r: 255, g: 236, b: 126 },
    }
}

/// The color of effects, with an opacity.
pub fn themed_effect_color(theme: UiTheme, alpha: u8) -> (r: Rgba)
    ensures
        r == seen_color(effect_color(theme), alpha),
{
    color_with_alpha(
        match theme {
            UiTheme::Graphite => Rgb { r: 230, g: 236, b: 245 },
            UiTheme::Frost => Rgb { r: 35, g: 100, b: 150 },
            UiTheme::Retrowave => Rgb { r: 255, g: 236, b: 126 },
        },
        alpha,
    )
}

/// The color that is laid over tiles.
pub open spec fn cover_color(theme: UiTheme) -> Rgb {
    match theme {
        UiTheme::Graphite => Rgb { r: 18, g: 19, b: 21 },
        UiTheme::Frost => Rgb { r: 255, g: 255, b: 255 },
        UiTheme::Retrowave => Rgb { r: 26, g: 5, b: 45 },
    }
}

/// The color that is laid over tiles, with an opacity.
pub fn overlay_color(theme: UiTheme, alpha: u8) -> (r: Rgba)
    ensures
        r == seen_color(cover_color(theme), alpha),
{
    color_with_alpha(
        match theme {
            UiTheme::Graphite => Rgb { r: 18, g: 19, b: 21 },
            UiTheme::Frost => Rgb { r: 255, g: 255, b: 255 },
            UiTheme::Retrowave => Rgb { r: 26, g: 5, b: 45 },
        },
        alpha,
    )
}

/// What cannot be seen through is seen as it is, and what is fully transparent is
/// not seen at all.
pub proof fn law_opacity_ends(color: Rgb)
    ensures
        seen_color(color, 255) == (Rgba { r: color.r, g: color.g, b: color.b, a: 255 }),
        seen_color(color, 0) == (Rgba { r: 0, g: 0, b: 0, a: 0 }),
{
}

/// What an opacity lets through of a color is, in each of its parts, the number
/// nearest to that share of it, and the opacity is kept.
pub proof fn law_opacity_scales_each_part(color: Rgb, opacity: u8)
    ensures
        ({
            let seen = seen_color(color, opacity);
            &&& seen.a == opacity
            &&& -255 < 2 * (255 * seen.r - color.r * opacity) < 255
            &&& -255 < 2 * (255 * seen.g - color.g * opacity) < 255
            &&& -255 < 2 * (255 * seen.b - color.b * opacity) < 255
        }),
{
    lemma_share(color.r, opacity);
    lemma_share(color.g, opacity);
    lemma_share(color.b, opacity);
}

proof fn lemma_share(channel: u8, opacity: u8)
    ensures
        0 <= let_through(channel, opacity) <= 255,
        -255 < 2 * (255 * let_through(channel, opacity) - channel * opacity) < 255,
{
    let product = channel * opacity;
    assert(0 <= product <= 65025) by (nonlinear_arith)
        requires
            product == channel * opacity,
            0 <= channel <= 255,
            0 <= opacity <= 255,
    ;
}

/// Themes are told apart by their names and by what is stored for them, and whatever
/// is not stored for any other theme stands for Graphite.
pub proof fn law_themes_are_told_apart(one: UiTheme, two: UiTheme, value: Seq<char>)
    ensures
        one.name() == two.name() <==> one == two,
        one.stored() == two.stored() <==> one == two,
        UiTheme::of_stored(value) == UiTheme::Frost <==> value == "frost"@,
        UiTheme::of_stored(value) == UiTheme::Retrowave <==> value == "retrowave"@,
        UiTheme::Graphite.name() == "Graphite"@,
        UiTheme::Frost.name() == "Frost"@,
        UiTheme::Retrowave.name() == "Retrowave"@,
        UiTheme::Graphite.stored() == "graphite"@,
        UiTheme::Frost.stored() == "frost"@,
        UiTheme::Retrowave.stored() == "retrowave"@,
{
    reveal_strlit("graphite");
    reveal_strlit("frost");
    reveal_strlit("retrowave");
    reveal_strlit("Graphite");
    reveal_strlit("Frost");
    reveal_strlit("Retrowave");
    assert("graphite"@.len() == 8 && "frost"@.len() == 5 && "retrowave"@.len() == 9);
    assert("Graphite"@.len() == 8 && "Frost"@.len() == 5 && "Retrowave"@.len() == 9);
}

/// The colors of the themes.
pub proof fn law_themes_have_their_colors(theme: UiTheme)
    ensures
        theme == UiTheme::Graphite ==> effect_color(theme) == (Rgb { r: 230, g: 236, b: 245 })
            && cover_color(theme) == (Rgb { r: 18, g: 19, b: 21 }),
        theme == UiTheme::Frost ==> effect_color(theme) == (Rgb { r: 35, g: 100, b: 150 })
            && cover_color(theme) == (Rgb { r: 255, g: 255, b: 255 }),
        theme == UiTheme::Retrowave ==> effect_color(theme) == (Rgb { r: 255, g: 236, b: 126 })
            && cover_color(theme) == (Rgb { r: 26, g: 5, b: 45 }),
{
}

} // verus!
