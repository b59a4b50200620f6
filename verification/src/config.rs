//! Configuration values as plain data.
//!
//! Reading the configuration file, the environment and the theme assets
//! happens outside the library; the enumerations and the decisions they
//! feed are here.

use vstd::prelude::*;

verus! {

/// The built-in themes a configuration may name.
#[derive(Debug, Clone, Copy, PartialEq, Eq, Structural)]
pub enum DefaultTheme {
    ImperialDark,
    RadiumDark,
    TundraDark,
    OceanDark,
    MonochromeDark,
    BlackWhiteDark,
    Base16Dark,
    Base16RelaxDark,
    MonekaiDark,
    SolarizedDark,
    OxoCarbonDark,
    RustDark,
    VSCodeDark,
    ImperialShell,
    RadiumShell,
    TundraShell,
    OceanShell,
    MonochromeShell,
    BlackWhiteShell,
    Base16Shell,
    Base16RelaxShell,
    MonekaiShell,
    SolarizedShell,
    OxoCarbonShell,
    RustShell,
    VSCodeShell,
}

/// The display name of each built-in theme.
pub open spec fn theme_name(t: DefaultTheme) -> Seq<char> {
    match t {
        DefaultTheme::ImperialDark => "Imperial Dark"@,
        DefaultTheme::RadiumDark => "Radium Dark"@,
        DefaultTheme::TundraDark => "Tundra Dark"@,
        DefaultTheme::OceanDark => "Ocean Dark"@,
        DefaultTheme::MonochromeDark => "Monochrome Dark"@,
        DefaultTheme::BlackWhiteDark => "Black & White Dark"@,
        DefaultTheme::Base16Dark => "Base16 Dark"@,
        DefaultTheme::Base16RelaxDark => "Base16 Relax Dark"@,
        DefaultTheme::MonekaiDark => "Monekai Dark"@,
        DefaultTheme::SolarizedDark => "Solarized Dark"@,
        DefaultTheme::OxoCarbonDark => "OxoCarbon Dark"@,
        DefaultTheme::RustDark => "Rust Dark"@,
        DefaultTheme::VSCodeDark => "VSCode Dark"@,
        DefaultTheme::ImperialShell => "Imperial Shell"@,
        DefaultTheme::RadiumShell => "Radium Shell"@,
        DefaultTheme::TundraShell => "Tundra Shell"@,
        DefaultTheme::OceanShell => "Ocean Shell"@,
        DefaultTheme::MonochromeShell => "Monochrome Shell"@,
        DefaultTheme::BlackWhiteShell => "Black & White Shell"@,
        DefaultTheme::Base16Shell => "Base16 Shell"@,
        DefaultTheme::Base16RelaxShell => "Base16 Relax Shell"@,
        DefaultTheme::MonekaiShell => "Monekai Shell"@,
        DefaultTheme::SolarizedShell => "Solarized Shell"@,
        DefaultTheme::OxoCarbonShell => "OxoCarbon Shell"@,
        DefaultTheme::RustShell => "Rust Shell"@,
        DefaultTheme::VSCodeShell => "VSCode Shell"@,
    }
}

impl DefaultTheme {
    /// The name shown for the theme.
    pub fn display_name(&self) -> (r: String)
        ensures
            r@ == theme_name(*self),
    {
        match self {
            DefaultTheme::ImperialDark => "Imperial Dark".to_owned(),
            DefaultTheme::RadiumDark => "Radium Dark".to_owned(),
            DefaultTheme::TundraDark => "Tundra Dark".to_owned(),
            DefaultTheme::OceanDark => "Ocean Dark".to_owned(),
            DefaultTheme::MonochromeDark => "Monochrome Dark".to_owned(),
            DefaultTheme::BlackWhiteDark => "Black & White Dark".to_owned(),
            DefaultTheme::Base16Dark => "Base16 Dark".to_owned(),
            DefaultTheme::Base16RelaxDark => "Base16 Relax Dark".to_owned(),
            DefaultTheme::MonekaiDark => "Monekai Dark".to_owned(),
            DefaultTheme::SolarizedDark => "Solarized Dark".to_owned(),
            DefaultTheme::OxoCarbonDark => "OxoCarbon Dark".to_owned(),
            DefaultTheme::RustDark => "Rust Dark".to_owned(),
            DefaultTheme::VSCodeDark => "VSCode Dark".to_owned(),
            DefaultTheme::ImperialShell => "Imperial Shell".to_owned(),
            DefaultTheme::RadiumShell => "Radium Shell".to_owned(),
            DefaultTheme::TundraShell => "Tundra Shell".to_owned(),
            DefaultTheme::OceanShell => "Ocean Shell".to_owned(),
            DefaultTheme::MonochromeShell => "Monochrome Shell".to_owned(),
            DefaultTheme::BlackWhiteShell => "Black & White Shell".to_owned(),
            DefaultTheme::Base16Shell => "Base16 Shell".to_owned(),
            DefaultTheme::Base16RelaxShell => "Base16 Relax Shell".to_owned(),
            DefaultTheme::MonekaiShell => "Monekai Shell".to_owned(),
            DefaultTheme::SolarizedShell => "Solarized Shell".to_owned(),
            DefaultTheme::OxoCarbonShell => "OxoCarbon Shell".to_owned(),
            DefaultTheme::RustShell => "Rust Shell".to_owned(),
            DefaultTheme::VSCodeShell => "VSCode Shell".to_owned(),
        }
    }
}

/// Whether a theme renders dark panels or the terminal's own background.
#[derive(Debug, Clone, Copy, PartialEq, Eq, Structural)]
pub enum ThemeType {
    Dark,
    Shell,
}

/// The verbosity the log runs at.
#[derive(Debug, Clone, Copy, PartialEq, Eq, Structural)]
pub enum LogLevel {
    Error,
    Info,
    Debug,
}

/// What the settings say about logging.
#[derive(Debug, Clone, Copy)]
pub struct LoggingConfig {
    pub silent: bool,
    pub debug: bool,
}

impl LoggingConfig {
    /// Debugging wins over silence; otherwise silence reduces the log to
    /// errors, and the default is informational.
    pub fn get_level(&self) -> (r: LogLevel)
        ensures
            self.debug ==> r == LogLevel::Debug,
            !self.debug && self.silent ==> r == LogLevel::Error,
            !self.debug && !self.silent ==> r == LogLevel::Info,
    {
        if self.debug {
            LogLevel::Debug
        } else if self.silent {
            LogLevel::Error
        } else {
            LogLevel::Info
        }
    }
}

} // verus!
