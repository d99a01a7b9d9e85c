use rnote::ui::appmenu::{color_scheme_on_toggle, ColorScheme, ThemeToggle};

#[test]
fn active_toggle_asks_for_its_scheme() {
    assert_eq!(color_scheme_on_toggle(ThemeToggle::Default, true), Some(ColorScheme::Default));
    assert_eq!(color_scheme_on_toggle(ThemeToggle::Light, true), Some(ColorScheme::ForceLight));
    assert_eq!(color_scheme_on_toggle(ThemeToggle::Dark, true), Some(ColorScheme::ForceDark));
}

#[test]
fn inactive_toggle_asks_for_nothing() {
    assert_eq!(color_scheme_on_toggle(ThemeToggle::Default, false), None);
    assert_eq!(color_scheme_on_toggle(ThemeToggle::Light, false), None);
    assert_eq!(color_scheme_on_toggle(ThemeToggle::Dark, false), None);
}
