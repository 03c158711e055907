//! The text attributes that the filtered program has asked for.

use vstd::prelude::*;

verus! {

/// The weight of the text: bold, faint, or neither.
#[derive(Clone, Copy, PartialEq, Eq, Debug, Structural)]
pub enum Intensity {
    /// Bold.
    High,
    /// Faint.
    Low,
    /// Neither bold nor faint.
    Normal,
}

/// What the program has requested so far, as far as it matters for a
/// monochrome terminal.
#[derive(Clone, Copy, PartialEq, Eq, Debug, Structural)]
pub struct Attributes {
    /// A background colour is in effect.
    pub background_set: bool,
    /// The program itself switched reverse video on.
    pub video_reversed: bool,
    /// A foreground colour is in effect.
    pub foreground_set: bool,
    /// The intensity the program itself selected.
    pub intensity: Intensity,
}

impl Attributes {
    /// The attributes of a terminal after a reset.
    pub open spec fn initial() -> Attributes {
        Attributes {
            background_set: false,
            video_reversed: false,
            foreground_set: false,
            intensity: Intensity::Normal,
        }
    }

    /// Whether the real terminal shows reverse video: a background colour
    /// inverts the cells, and an explicit reverse-video request inverts them
    /// once more.
    pub open spec fn shows_reverse(self) -> bool {
        self.background_set != self.video_reversed
    }

    /// The intensity the real terminal shows. With `bold_colors`, a
    /// foreground colour is rendered as bold, unless the program chose an
    /// intensity of its own.
    pub open spec fn shows_intensity(self, bold_colors: bool) -> Intensity {
        if self.intensity == Intensity::Normal && bold_colors && self.foreground_set {
            Intensity::High
        } else {
            self.intensity
        }
    }

    /// Whether the real terminal is to show reverse video.
    pub fn reversed(&self) -> (reversed: bool)
        ensures
            reversed == self.shows_reverse(),
    {
        self.background_set != self.video_reversed
    }

    /// The intensity that the real terminal is to show.
    pub fn shown_intensity(&self, bold_colors: bool) -> (intensity: Intensity)
        ensures
            intensity == self.shows_intensity(bold_colors),
    {
        if self.intensity == Intensity::Normal && bold_colors && self.foreground_set {
            Intensity::High
        } else {
            self.intensity
        }
    }

    /// Builds the attributes of a terminal after a reset.
    pub fn new() -> (a: Attributes)
        ensures
            a == Attributes::initial(),
    {
        Attributes {
            background_set: false,
            video_reversed: false,
            foreground_set: false,
            intensity: Intensity::Normal,
        }
    }
}

} // verus!
