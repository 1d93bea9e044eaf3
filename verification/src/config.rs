//! What a user keeps between sessions: theme, nickname and color.

use vstd::prelude::*;
use crate::text::{eq_ignore_case, from_chars, range_eq_ignore_case, to_chars, trim, trim_range};
use crate::utils::{color_of_text, color_text, parse_color, rgb_to_string};

verus! {

/// The look of the user interface.
#[derive(Clone, Copy, Debug, PartialEq, Eq, Structural)]
pub enum Theme {
    Dark,
    Light,
}

impl Theme {
    /// The name under which the theme is stored.
    pub open spec fn spec_name(self) -> Seq<char> {
        match self {
            Theme::Dark => "Dark"@,
            Theme::Light => "Light"@,
        }
    }

    /// The name under which the theme is stored.
    pub fn name(&self) -> (s: &'static str)
        ensures
            s@ == self.spec_name(),
    {
        match self {
            Theme::Dark => "Dark",
            Theme::Light => "Light",
        }
    }
}

/// The settings of a user.
pub struct Config {
    pub theme: Theme,
    pub nickname: String,
    pub custom_color_enabled: bool,
    pub color: [u8; 3],
}

/// Whether a stored text is `word`, in any mix of upper and lower case.
pub open spec fn says(stored: Option<Seq<char>>, word: Seq<char>) -> bool {
    stored is Some && eq_ignore_case(stored.unwrap(), word)
}

/// The color that a stored text denotes; white where there is none or it
/// does not read as a color.
pub open spec fn stored_color(stored: Option<Seq<char>>) -> Seq<u8> {
    match stored {
        Some(text) => match color_of_text(text) {
            Some(rgb) => rgb@,
            None => seq![255u8, 255u8, 255u8],
        },
        None => seq![255u8, 255u8, 255u8],
    }
}

/// The view of a text that may be missing.
pub open spec fn text_view(stored: Option<&str>) -> Option<Seq<char>> {
    match stored {
        Some(text) => Some(text@),
        None => None,
    }
}

/// Whether `stored` is `word` in any mix of case.
fn stored_says(stored: Option<&str>, word: &str) -> (b: bool)
    ensures
        b == says(text_view(stored), word@),
{
    match stored {
        Some(text) => {
            let v = to_chars(text);
            assert(v@.subrange(0, v@.len() as int) == v@);
            range_eq_ignore_case(&v, 0, v.len(), &to_chars(word))
        },
        None => false,
    }
}

impl Config {
    /// The settings that the stored texts give. The theme is dark unless
    /// `light` is stored; the custom color is on only where `true` is stored;
    /// the nickname is the stored one without white space around it; the
    /// color is white unless a color is stored.
    pub fn load(
        theme: Option<&str>,
        custom_color_enabled: Option<&str>,
        nickname: Option<&str>,
        color: Option<&str>,
    ) -> (c: Config)
        ensures
            c.theme == if says(text_view(theme), "light"@) {
                Theme::Light
            } else {
                Theme::Dark
            },
            c.custom_color_enabled == says(text_view(custom_color_enabled), "true"@),
            c.nickname@ == match nickname {
                Some(name) => trim(name@),
                None => Seq::empty(),
            },
            c.color@ == stored_color(text_view(color)),
    {
        let theme = if stored_says(theme, "light") {
            Theme::Light
        } else {
            Theme::Dark
        };
        let custom_color_enabled = stored_says(custom_color_enabled, "true");
        let nickname = match nickname {
            Some(name) => {
                let v = to_chars(name);
                assert(v@.subrange(0, v@.len() as int) == v@);
                let (lo, hi) = trim_range(&v, 0, v.len());
                from_chars(&v, lo, hi)
            },
            None => String::new(),
        };
        let white: [u8; 3] = [255, 255, 255];
        assert(white@ =~= seq![255u8, 255u8, 255u8]);
        let color = match color {
            Some(text) => match parse_color(text) {
                Ok(rgb) => rgb,
                Err(_) => white,
            },
            None => white,
        };
        Config { theme, nickname, custom_color_enabled, color }
    }

    /// What is stored for these settings, as keys and texts in order: the
    /// nickname unless it is blank, the color, whether the custom color is
    /// on, and the theme.
    pub open spec fn stored(self) -> Seq<(Seq<char>, Seq<char>)> {
        let rest = seq![
            ("color"@, color_text(self.color)),
            (
                "custom_color_enabled"@,
                if self.custom_color_enabled {
                    "true"@
                } else {
                    "false"@
                },
            ),
            ("theme"@, self.theme.spec_name()),
        ];
        if trim(self.nickname@).len() > 0 {
            seq![("nickname"@, self.nickname@)] + rest
        } else {
            rest
        }
    }

    /// The keys and texts to store for these settings.
    pub fn save(&self) -> (out: Vec<(String, String)>)
        ensures
            out@.map_values(|e: (String, String)| (e.0@, e.1@)) == self.stored(),
    {
        let mut out: Vec<(String, String)> = Vec::new();
        let v = to_chars(self.nickname.as_str());
        assert(v@.subrange(0, v@.len() as int) == v@);
        let (lo, hi) = trim_range(&v, 0, v.len());
        if lo < hi {
            out.push(("nickname".to_owned(), self.nickname.clone()));
        }
        out.push(("color".to_owned(), rgb_to_string(self.color)));
        let enabled = if self.custom_color_enabled {
            "true"
        } else {
            "false"
        };
        out.push(("custom_color_enabled".to_owned(), enabled.to_owned()));
        out.push(("theme".to_owned(), self.theme.name().to_owned()));
        assert(out@.map_values(|e: (String, String)| (e.0@, e.1@)) =~= self.stored());
        out
    }
}

} // verus!
