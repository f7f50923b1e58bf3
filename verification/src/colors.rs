//! The theme catalog: named palettes that resolve five color roles.

use vstd::prelude::*;

verus! {

/// A 24-bit color.
#[derive(Clone, Copy, Debug, PartialEq, Eq, Structural)]
pub struct Rgb {
    pub r: u8,
    pub g: u8,
    pub b: u8,
}

/// The value of one hexadecimal digit, lower or upper case.
pub open spec fn hex_digit_value(c: char) -> int {
    if '0' <= c && c <= '9' {
        c as int - '0' as int
    } else if 'a' <= c && c <= 'f' {
        c as int - 'a' as int + 10
    } else {
        c as int - 'A' as int + 10
    }
}

/// Whether `c` is a hexadecimal digit.
pub open spec fn is_hex_digit(c: char) -> bool {
    ('0' <= c && c <= '9') || ('a' <= c && c <= 'f') || ('A' <= c && c <= 'F')
}

/// A color written as `#rrggbb`.
pub open spec fn is_hex_color(s: Seq<char>) -> bool {
    &&& s.len() == 7
    &&& s[0] == '#'
    &&& forall|i: int| 1 <= i < 7 ==> is_hex_digit(#[trigger] s[i])
}

/// The value of two hexadecimal digits.
pub open spec fn hex_pair_value(hi: char, lo: char) -> int {
    16 * hex_digit_value(hi) + hex_digit_value(lo)
}

/// The color that `#rrggbb` denotes.
pub open spec fn hex_color_value(s: Seq<char>) -> Rgb {
    Rgb {
        r: hex_pair_value(s[1], s[2]) as u8,
        g: hex_pair_value(s[3], s[4]) as u8,
        b: hex_pair_value(s[5], s[6]) as u8,
    }
}

/// The value of one hexadecimal digit.
fn hex_digit(c: char) -> (v: u8)
    requires
        is_hex_digit(c),
    ensures
        v == hex_digit_value(c),
        v < 16,
{
    if '0' <= c && c <= '9' {
        (c as u32 - '0' as u32) as u8
    } else if 'a' <= c && c <= 'f' {
        (c as u32 - 'a' as u32 + 10) as u8
    } else {
        (c as u32 - 'A' as u32 + 10) as u8
    }
}

/// The value of two hexadecimal digits.
fn hex_pair(hi: char, lo: char) -> (v: u8)
    requires
        is_hex_digit(hi),
        is_hex_digit(lo),
    ensures
        v == hex_pair_value(hi, lo),
{
    16 * hex_digit(hi) + hex_digit(lo)
}

/// Reads a color written as `#rrggbb`.
pub fn hex_to_rgb(hex: &str) -> (c: Rgb)
    requires
        is_hex_color(hex@),
    ensures
        c == hex_color_value(hex@),
{
    Rgb {
        r: hex_pair(hex.get_char(1), hex.get_char(2)),
        g: hex_pair(hex.get_char(3), hex.get_char(4)),
        b: hex_pair(hex.get_char(5), hex.get_char(6)),
    }
}

/// The six named colors of a palette.
#[derive(Clone, Copy, Debug, PartialEq, Eq, Structural)]
pub struct Color {
    pub text: Rgb,
    pub teal: Rgb,
    pub sky: Rgb,
    pub peach: Rgb,
    pub red: Rgb,
    pub green: Rgb,
}

/// The five color roles of a theme, resolved.
#[derive(Clone, Copy, Debug, PartialEq, Eq, Structural)]
pub struct ThemeColors {
    pub text: Rgb,
    pub primary: Rgb,
    pub secondary: Rgb,
    pub tertiary: Rgb,
    pub accent: Rgb,
}

/// A logical color slot that every theme fills.
#[derive(Clone, Copy, Debug, PartialEq, Eq, Structural)]
pub enum Role {
    Text,
    Primary,
    Secondary,
    Tertiary,
    Accent,
}

/// The themes of the catalog.
#[derive(Clone, Copy, Debug, PartialEq, Eq, Structural)]
pub enum Theme {
    CatppuccinLatte,
    CatppuccinMocha,
    OneDark,
}

/// How many themes the catalog holds.
pub const THEME_COUNT: usize = 3;

impl Theme {
    /// The palette of each theme.
    pub open spec fn palette(self) -> Color {
        match self {
            Theme::CatppuccinLatte => Color {
                text: Rgb { r: 0x4c, g: 0x4f, b: 0x69 },
                teal: Rgb { r: 0x17, g: 0x92, b: 0x99 },
                sky: Rgb { r: 0x04, g: 0xa5, b: 0xe5 },
                peach: Rgb { r: 0xfe, g: 0x64, b: 0x0b },
                red: Rgb { r: 0xd2, g: 0x0f, b: 0x39 },
                green: Rgb { r: 0x40, g: 0xa0, b: 0x2b },
            },
            Theme::CatppuccinMocha => Color {
                text: Rgb { r: 0xcd, g: 0xd6, b: 0xf4 },
                teal: Rgb { r: 0x94, g: 0xe2, b: 0xd5 },
                sky: Rgb { r: 0x94, g: 0xe2, b: 0xd5 },
                peach: Rgb { r: 0xfa, g: 0xb3, b: 0x87 },
                red: Rgb { r: 0xf3, g: 0x8b, b: 0xa8 },
                green: Rgb { r: 0xa6, g: 0xe3, b: 0xa1 },
            },
            Theme::OneDark => Color {
                text: Rgb { r: 0xab, g: 0xb2, b: 0xbf },
                teal: Rgb { r: 0x56, g: 0xb6, b: 0xc2 },
                sky: Rgb { r: 0x61, g: 0xaf, b: 0xef },
                peach: Rgb { r: 0xe5, g: 0xc0, b: 0x7b },
                red: Rgb { r: 0xe0, g: 0x6c, b: 0x75 },
                green: Rgb { r: 0x98, g: 0xc3, b: 0x79 },
            },
        }
    }

    /// The roles as the palette fills them: primary is teal, secondary is
    /// sky, tertiary and accent are green.
    pub open spec fn theme_colors(self) -> ThemeColors {
        let palette = self.palette();
        ThemeColors {
            text: palette.text,
            primary: palette.teal,
            secondary: palette.sky,
            tertiary: palette.green,
            accent: palette.green,
        }
    }

    /// The color that fills `role` in this theme.
    pub open spec fn role_color(self, role: Role) -> Rgb {
        match role {
            Role::Text => self.theme_colors().text,
            Role::Primary => self.theme_colors().primary,
            Role::Secondary => self.theme_colors().secondary,
            Role::Tertiary => self.theme_colors().tertiary,
            Role::Accent => self.theme_colors().accent,
        }
    }

/// The display name of each theme.
    pub open spec fn name(self) -> Seq<char> {
        match self {
            Theme::CatppuccinLatte => "Catppuccin Latte"@,
            Theme::CatppuccinMocha => "Catppuccin Mocha"@,
            Theme::OneDark => "One Dark"@,
        }
    }

    /// The theme at `index` of the catalog, which is walked in a cycle.
    pub open spec fn at(index: int) -> Theme {
        if index % 3 == 0 {
            Theme::CatppuccinLatte
        } else if index % 3 == 1 {
            Theme::CatppuccinMocha
        } else {
            Theme::OneDark
        }
    }

/// The theme at `index` of the catalog, which is walked in a cycle.
    pub fn from_index(index: usize) -> (theme: Theme)
        ensures
            theme == Theme::at(index as int),
    {
        let slot = index % THEME_COUNT;
        if slot == 0 {
            Theme::CatppuccinLatte
        } else if slot == 1 {
            Theme::CatppuccinMocha
        } else {
            Theme::OneDark
        }
    }

/// The palette of this theme.
    pub fn get_colors(&self) -> (colors: Color)
        ensures
            colors == self.palette(),
    {
        match self {
            Theme::CatppuccinLatte => {
                proof {
                    reveal_strlit("#04a5e5");
                    reveal_strlit("#179299");
                    reveal_strlit("#40a02b");
                    reveal_strlit("#4c4f69");
                    reveal_strlit("#d20f39");
                    reveal_strlit("#fe640b");
                }
                Color {
                    text: hex_to_rgb("#4c4f69"),
                    teal: hex_to_rgb("#179299"),
                    sky: hex_to_rgb("#04a5e5"),
                    peach: hex_to_rgb("#fe640b"),
                    red: hex_to_rgb("#d20f39"),
                    green: hex_to_rgb("#40a02b"),
                }
            },
            Theme::CatppuccinMocha => {
                proof {
                    reveal_strlit("#94e2d5");
                    reveal_strlit("#a6e3a1");
                    reveal_strlit("#cdd6f4");
                    reveal_strlit("#f38ba8");
                    reveal_strlit("#fab387");
                }
                Color {
                    text: hex_to_rgb("#cdd6f4"),
                    teal: hex_to_rgb("#94e2d5"),
                    sky: hex_to_rgb("#94e2d5"),
                    peach: hex_to_rgb("#fab387"),
                    red: hex_to_rgb("#f38ba8"),
                    green: hex_to_rgb("#a6e3a1"),
                }
            },
            Theme::OneDark => {
                proof {
                    reveal_strlit("#56b6c2");
                    reveal_strlit("#61afef");
                    reveal_strlit("#98c379");
                    reveal_strlit("#abb2bf");
                    reveal_strlit("#e06c75");
                    reveal_strlit("#e5c07b");
                }
                Color {
                    text: hex_to_rgb("#abb2bf"),
                    teal: hex_to_rgb("#56b6c2"),
                    sky: hex_to_rgb("#61afef"),
                    peach: hex_to_rgb("#e5c07b"),
                    red: hex_to_rgb("#e06c75"),
                    green: hex_to_rgb("#98c379"),
                }
            },
        }
    }

/// The five roles as this theme fills them.
    pub fn get_theme_colors(&self) -> (colors: ThemeColors)
        ensures
            colors == self.theme_colors(),
    {
        let colors = self.get_colors();
        ThemeColors {
            text: colors.text,
            primary: colors.teal,
            secondary: colors.sky,
            tertiary: colors.green,
            accent: colors.green,
        }
    }

/// The color that fills `role` in this theme.
    pub fn resolve(&self, role: Role) -> (color: Rgb)
        ensures
            color == self.role_color(role),
    {
        let colors = self.get_theme_colors();
        match role {
            Role::Text => colors.text,
            Role::Primary => colors.primary,
            Role::Secondary => colors.secondary,
            Role::Tertiary => colors.tertiary,
            Role::Accent => colors.accent,
        }
    }

/// The display name of this theme.
    pub fn get_name(&self) -> (name: &'static str)
        ensures
            name@ == self.name(),
    {
        match self {
            Theme::CatppuccinLatte => "Catppuccin Latte",
            Theme::CatppuccinMocha => "Catppuccin Mocha",
            Theme::OneDark => "One Dark",
        }
    }
}

} // verus!
