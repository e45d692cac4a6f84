//! Client-side presentation settings that ship with the game: small closed
//! enums whose labels and derived values the user interface relies on.

use vstd::prelude::*;

verus! {

/// Shadow rendering quality steps offered by the graphics settings.
#[derive(Clone, Copy, PartialEq, Eq, Structural, Debug)]
pub enum ShadowQuality {
    NoShadows,
    Low,
    Medium,
    High,
}

impl ShadowQuality {
    /// The label shown for the option.
    pub fn as_ref(&self) -> (r: &'static str)
        ensures
            r@ == match self {
                ShadowQuality::NoShadows => "No Shadows"@,
                ShadowQuality::Low => "Low"@,
                ShadowQuality::Medium => "Medium"@,
                ShadowQuality::High => "High"@,
            },
    {
        match self {
            ShadowQuality::NoShadows => "No Shadows",
            ShadowQuality::Low => "Low",
            ShadowQuality::Medium => "Medium",
            ShadowQuality::High => "High",
        }
    }
}

/// How presentation is synchronized with the display.
#[derive(Clone, Copy, PartialEq, Eq, Structural, Debug)]
pub enum VSyncOptions {
    NoVsync,
    Vsync,
    LowLatencyVsync,
}

impl VSyncOptions {
    /// The label shown for the option.
    pub fn as_ref(&self) -> (r: &'static str)
        ensures
            r@ == match self {
                VSyncOptions::NoVsync => "No VSync"@,
                VSyncOptions::Vsync => "VSync Enabled"@,
                VSyncOptions::LowLatencyVsync => "Low Latency VSync"@,
            },
    {
        match self {
            VSyncOptions::NoVsync => "No VSync",
            VSyncOptions::Vsync => "VSync Enabled",
            VSyncOptions::LowLatencyVsync => "Low Latency VSync",
        }
    }
}

/// How often the game saves on its own.
#[derive(Clone, Copy, PartialEq, Eq, Structural, Debug)]
pub enum AutoSaveEvery {
    Never,
    OneMinute,
    FiveMinutes,
}

impl AutoSaveEvery {
    /// The label shown for the option.
    pub fn as_ref(&self) -> (r: &'static str)
        ensures
            r@ == match self {
                AutoSaveEvery::Never => "Never"@,
                AutoSaveEvery::OneMinute => "Minute"@,
                AutoSaveEvery::FiveMinutes => "Five Minutes"@,
            },
    {
        match self {
            AutoSaveEvery::Never => "Never",
            AutoSaveEvery::OneMinute => "Minute",
            AutoSaveEvery::FiveMinutes => "Five Minutes",
        }
    }

    /// The save period in seconds, `None` for never (the caller turns it
    /// into its clock's duration type).
    pub fn period_secs(&self) -> (r: Option<u64>)
        ensures
            r == match self {
                AutoSaveEvery::Never => Option::<u64>::None,
                AutoSaveEvery::OneMinute => Option::Some(60u64),
                AutoSaveEvery::FiveMinutes => Option::Some(300u64),
            },
    {
        match self {
            AutoSaveEvery::Never => Option::None,
            AutoSaveEvery::OneMinute => Option::Some(60),
            AutoSaveEvery::FiveMinutes => Option::Some(300),
        }
    }
}

} // verus!
