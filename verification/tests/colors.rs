use mdslides::colors::{hex_to_rgb, Color, Rgb, Role, Theme, ThemeColors, THEME_COUNT};

#[test]
fn hex_colors_are_read_digit_by_digit() {
    assert_eq!(hex_to_rgb("#000000"), Rgb { r: 0, g: 0, b: 0 });
    assert_eq!(hex_to_rgb("#ffffff"), Rgb { r: 255, g: 255, b: 255 });
    assert_eq!(hex_to_rgb("#4c4f69"), Rgb { r: 76, g: 79, b: 105 });
    assert_eq!(hex_to_rgb("#FE640B"), Rgb { r: 254, g: 100, b: 11 });
    assert_eq!(hex_to_rgb("#0a1B2c"), Rgb { r: 10, g: 27, b: 44 });
}

#[test]
fn latte_palette() {
    assert_eq!(
        Theme::CatppuccinLatte.get_colors(),
        Color {
            text: Rgb { r: 0x4c, g: 0x4f, b: 0x69 },
            teal: Rgb { r: 0x17, g: 0x92, b: 0x99 },
            sky: Rgb { r: 0x04, g: 0xa5, b: 0xe5 },
            peach: Rgb { r: 0xfe, g: 0x64, b: 0x0b },
            red: Rgb { r: 0xd2, g: 0x0f, b: 0x39 },
            green: Rgb { r: 0x40, g: 0xa0, b: 0x2b },
        }
    );
}

#[test]
fn mocha_palette() {
    assert_eq!(
        Theme::CatppuccinMocha.get_colors(),
        Color {
            text: Rgb { r: 0xcd, g: 0xd6, b: 0xf4 },
            teal: Rgb { r: 0x94, g: 0xe2, b: 0xd5 },
            sky: Rgb { r: 0x94, g: 0xe2, b: 0xd5 },
            peach: Rgb { r: 0xfa, g: 0xb3, b: 0x87 },
            red: Rgb { r: 0xf3, g: 0x8b, b: 0xa8 },
            green: Rgb { r: 0xa6, g: 0xe3, b: 0xa1 },
        }
    );
}

#[test]
fn one_dark_palette() {
    assert_eq!(
        Theme::OneDark.get_colors(),
        Color {
            text: Rgb { r: 0xab, g: 0xb2, b: 0xbf },
            teal: Rgb { r: 0x56, g: 0xb6, b: 0xc2 },
            sky: Rgb { r: 0x61, g: 0xaf, b: 0xef },
            peach: Rgb { r: 0xe5, g: 0xc0, b: 0x7b },
            red: Rgb { r: 0xe0, g: 0x6c, b: 0x75 },
            green: Rgb { r: 0x98, g: 0xc3, b: 0x79 },
        }
    );
}

#[test]
fn every_theme_fills_the_five_roles() {
    for index in 0..THEME_COUNT {
        let theme = Theme::from_index(index);
        let palette = theme.get_colors();
        let colors = theme.get_theme_colors();
        assert_eq!(
            colors,
            ThemeColors {
                text: palette.text,
                primary: palette.teal,
                secondary: palette.sky,
                tertiary: palette.green,
                accent: palette.green,
            }
        );
        assert_eq!(theme.resolve(Role::Text), colors.text);
        assert_eq!(theme.resolve(Role::Primary), colors.primary);
        assert_eq!(theme.resolve(Role::Secondary), colors.secondary);
        assert_eq!(theme.resolve(Role::Tertiary), colors.tertiary);
        assert_eq!(theme.resolve(Role::Accent), colors.accent);
    }
}

#[test]
fn themes_have_names_and_places() {
    assert_eq!(Theme::CatppuccinLatte.get_name(), "Catppuccin Latte");
    assert_eq!(Theme::CatppuccinMocha.get_name(), "Catppuccin Mocha");
    assert_eq!(Theme::OneDark.get_name(), "One Dark");
    assert_eq!(Theme::from_index(0), Theme::CatppuccinLatte);
    assert_eq!(Theme::from_index(1), Theme::CatppuccinMocha);
    assert_eq!(Theme::from_index(2), Theme::OneDark);
    assert_eq!(Theme::from_index(3), Theme::CatppuccinLatte);
    assert_eq!(Theme::from_index(usize::MAX), Theme::from_index(usize::MAX % 3));
}
