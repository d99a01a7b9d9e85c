use vstd::prelude::*;

verus! {

/// The three theme toggle buttons of the application menu.
#[derive(Clone, Copy, Debug, PartialEq, Eq, Structural)]
pub enum ThemeToggle {
    Default,
    Light,
    Dark,
}

/// The color schemes that the theme toggles ask the application window for.
#[derive(Clone, Copy, Debug, PartialEq, Eq, Structural)]
pub enum ColorScheme {
    /// Follow the system preference.
    Default,
    ForceLight,
    ForceDark,
}

/// The color scheme that toggle `toggle` stands for.
pub open spec fn toggle_scheme(toggle: ThemeToggle) -> ColorScheme {
    match toggle {
        ThemeToggle::Default => ColorScheme::Default,
        ThemeToggle::Light => ColorScheme::ForceLight,
        ThemeToggle::Dark => ColorScheme::ForceDark,
    }
}

/// When a theme toggle changes, the color scheme the window is to be set to: the toggle's own
/// scheme when the toggle became active, nothing when it became inactive.
pub fn color_scheme_on_toggle(toggle: ThemeToggle, is_active: bool) -> (scheme: Option<ColorScheme>)
    ensures
        scheme == (if is_active {
            Some(toggle_scheme(toggle))
        } else {
            None
        }),
{
    if is_active {
        match toggle {
            ThemeToggle::Default => Some(ColorScheme::Default),
            ThemeToggle::Light => Some(ColorScheme::ForceLight),
            ThemeToggle::Dark => Some(ColorScheme::ForceDark),
        }
    } else {
        None
    }
}

/// Each toggle asks for a scheme of its own: no two toggles stand for the same scheme.
pub proof fn lemma_toggle_schemes_distinct(a: ThemeToggle, b: ThemeToggle)
    ensures
        toggle_scheme(a) == toggle_scheme(b) ==> a == b,
{
}

} // verus!
